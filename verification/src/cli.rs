//! The parsed command surface: the value a command invocation is turned into
//! before it is dispatched to a handler.

use vstd::prelude::*;

verus! {

/// A whole invocation: at most one command.
pub struct CLI {
    pub command: Option<Commands>,
}

/// The four operations on the stash.
pub enum Commands {
    /// Add a URL to the store.
    Add(LinkArg),
    /// Delete a URL by display index.
    Delete(IndexArg),
    /// List all links, newest first.
    List,
    /// Open a link with the default handler or a program of choice.
    Open(OpenArgs),
}

/// Argument of `add`: the URL to store.
pub struct LinkArg {
    pub url: String,
}

/// Argument of `delete`: a 1-based display index, counted from the newest.
pub struct IndexArg {
    pub index: usize,
}

/// Arguments of `open`: a display index and, optionally, a program to open
/// the link with.
pub struct OpenArgs {
    pub index: usize,
    pub program: Option<String>,
}

} // verus!
