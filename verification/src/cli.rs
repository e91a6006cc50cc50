//! The commands of the command-line program.
use vstd::prelude::*;

verus! {

/// A parsed command line: the subcommand to run.
#[derive(Debug, Clone)]
pub struct Cli {
    pub command: Commands,
}

/// The subcommands of the program.
#[derive(Debug, Clone)]
pub enum Commands {
    /// Index the repository at `path`, embedding its fragments with `embedding_model`.
    Index { path: String, ollama_url: String, embedding_model: String },
    /// Answer `query` from the `top_k` fragments most similar to it, with `model`.
    Ask { query: String, ollama_url: String, model: String, top_k: usize },
    /// Report on the index of the current directory.
    Status,
    /// Show how to run the program with Docker Compose.
    Docker,
}

} // verus!
