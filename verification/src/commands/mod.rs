//! The commands of `ctx`, each the verified part of one subcommand.
pub mod chain;
pub mod deps;
pub mod find;
pub mod flow;
pub mod grep;
pub mod overview;
pub mod read;
pub mod symbols;
pub mod tree;

use vstd::prelude::*;
use self::deps::DepsArgs;
use self::find::FindArgs;
use self::grep::GrepArgs;
use self::overview::OverviewArgs;
use self::read::ReadArgs;
use self::symbols::SymbolsArgs;
use self::tree::TreeArgs;

verus! {

/// `ctx`: a context gatherer for AI-assisted planning. Every operation is read-only.
pub struct Cli {
    pub command: Command,
}

/// The subcommands.
pub enum Command {
    /// Show the directory tree with smart filtering.
    Tree(TreeArgs),
    /// Find files by name or glob pattern.
    Find(FindArgs),
    /// Search file contents for a pattern.
    Grep(GrepArgs),
    /// Read one or more files, concatenated with headers.
    Read(ReadArgs),
    /// List exported symbols.
    Symbols(SymbolsArgs),
    /// Quick project overview: structure, README and key files.
    Overview(OverviewArgs),
    /// Show the import tree of a file.
    Deps(DepsArgs),
    /// Print the compact reference of all commands.
    LlmReference,
}

} // verus!
