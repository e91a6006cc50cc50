//! RepoMind: indexes a code repository in overlapping fragments of lines and
//! answers questions about it from the fragments most similar to the question.
//!
//! This crate holds the program's logic with its proofs: which files are
//! scanned, how their text is cut into fragments, what is asked of the
//! language model and what is answered without one.
pub mod cli;
pub mod embeddings;
pub mod llm;
pub mod scanner;
pub mod text;
