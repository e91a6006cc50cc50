# repomind

A command-line assistant that indexes a code repository and answers questions
about it from the code fragments most similar to the question (retrieval
augmented generation against an Ollama server).

- `src/` is the verified library (Verus):
  - `scanner`: which paths are skipped, which files are indexed, and how a
    file's text is cut into windows of 40 lines that overlap by 10; with proofs
    that every fragment is a non-blank run of lines joined exactly, that
    fragments are ordered and uniquely named, and that no non-blank line is lost.
  - `llm`: the prompt sent to the language model and the demonstration answer
    given when the model cannot be reached.
  - `embeddings`: the embedding request and the word buckets of the
    deterministic fallback embedding.
  - `text`: lines, words, whitespace, joining and decimal numerals over
    character sequences.
  - `cli`: the program's commands.
- `app/` is the program around it: argument parsing (clap), walking the file
  system (walkdir), HTTP (reqwest, tokio), the JSON index (serde_json), the
  floating-point similarity search and terminal output (colored, indicatif).
