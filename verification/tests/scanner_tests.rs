use repomind::scanner::{CodeChunk, RepoScanner, CHUNK_LINES, CHUNK_OVERLAP};

fn comps(parts: &[&str]) -> Vec<String> {
    parts.iter().map(|p| p.to_string()).collect()
}

/// The fragments as the reference algorithm computes them with std's own
/// `lines`, `join` and `trim`.
fn reference_chunks(content: &str, rel_path: &str) -> Vec<(String, String, usize, usize, String)> {
    let lines: Vec<&str> = content.lines().collect();
    let mut out = Vec::new();
    if lines.is_empty() {
        return out;
    }
    let mut i = 0;
    let mut chunk_id = 0;
    while i < lines.len() {
        let end = (i + 40).min(lines.len());
        let text = lines[i..end].join("\n");
        if !text.trim().is_empty() {
            out.push((format!("{}:{}", rel_path, chunk_id), rel_path.to_string(), i + 1, end, text));
            chunk_id += 1;
        }
        if end == lines.len() {
            break;
        }
        i += 30;
    }
    out
}

fn as_tuples(chunks: &[CodeChunk]) -> Vec<(String, String, usize, usize, String)> {
    chunks
        .iter()
        .map(|c| (c.id.clone(), c.file_path.clone(), c.start_line, c.end_line, c.content.clone()))
        .collect()
}

fn numbered_lines(n: usize) -> String {
    (1..=n).map(|i| format!("line {}", i)).collect::<Vec<_>>().join("\n")
}

#[test]
fn chunk_constants() {
    assert_eq!(CHUNK_LINES, 40);
    assert_eq!(CHUNK_OVERLAP, 10);
}

#[test]
fn ignored_components() {
    let s = RepoScanner::new();
    assert!(s.is_ignored(&comps(&["repo", "node_modules", "x.js"])));
    assert!(s.is_ignored(&comps(&[".git"])));
    assert!(s.is_ignored(&comps(&[".", "target", "debug", "a.rs"])));
    assert!(s.is_ignored(&comps(&["a", ".repomind", "index.json"])));
    assert!(s.is_ignored(&comps(&["vendor"])));
    assert!(s.is_ignored(&comps(&["dist"])));
    assert!(s.is_ignored(&comps(&["build", "x"])));
    assert!(!s.is_ignored(&comps(&[".", "src", "main.rs"])));
    assert!(!s.is_ignored(&comps(&[])));
    assert!(!s.is_ignored(&comps(&["Target"])));
    assert!(!s.is_ignored(&comps(&["targets", "my.git"])));
}

#[test]
fn valid_extensions_ignore_case() {
    let s = RepoScanner::new();
    for e in ["rs", "go", "py", "js", "ts", "tsx", "jsx", "html", "css", "json", "toml", "yaml", "yml", "md", "dockerfile", "sh", "c", "cpp", "h", "java"] {
        assert!(s.is_valid_extension(e), "{}", e);
    }
    assert!(s.is_valid_extension("RS"));
    assert!(s.is_valid_extension("Dockerfile"));
    assert!(s.is_valid_extension("Json"));
    assert!(!s.is_valid_extension("exe"));
    assert!(!s.is_valid_extension(""));
    assert!(!s.is_valid_extension("rs "));
}

#[test]
fn accepts_file_combines_both_rules() {
    let s = RepoScanner::new();
    assert!(s.accepts_file(&comps(&["src", "lib.rs"]), Some("rs")));
    assert!(!s.accepts_file(&comps(&["target", "lib.rs"]), Some("rs")));
    assert!(!s.accepts_file(&comps(&["src", "Makefile"]), None));
    assert!(!s.accepts_file(&comps(&["src", "a.exe"]), Some("exe")));
}

#[test]
fn chunk_empty_file() {
    let s = RepoScanner::new();
    assert!(s.chunk_file("", "a.rs").is_empty());
}

#[test]
fn chunk_small_file() {
    let s = RepoScanner::new();
    let chunks = s.chunk_file("a\nb\nc", "src/x.rs");
    assert_eq!(chunks.len(), 1);
    assert_eq!(chunks[0].id, "src/x.rs:0");
    assert_eq!(chunks[0].file_path, "src/x.rs");
    assert_eq!(chunks[0].start_line, 1);
    assert_eq!(chunks[0].end_line, 3);
    assert_eq!(chunks[0].content, "a\nb\nc");
}

#[test]
fn chunk_crlf_and_final_newline() {
    let s = RepoScanner::new();
    let chunks = s.chunk_file("a\r\nb\r\n", "w.txt");
    assert_eq!(chunks.len(), 1);
    assert_eq!(chunks[0].content, "a\nb");
    assert_eq!(chunks[0].end_line, 2);
    let chunks = s.chunk_file("x\n\n", "w.txt");
    assert_eq!(chunks[0].content, "x\n");
    assert_eq!(chunks[0].end_line, 2);
}

#[test]
fn chunk_blank_file_gives_nothing() {
    let s = RepoScanner::new();
    assert!(s.chunk_file("  \n\t\n\u{3000}\n", "b.rs").is_empty());
    assert!(s.chunk_file("\n\n\n", "b.rs").is_empty());
}

#[test]
fn chunk_windows_overlap() {
    let s = RepoScanner::new();
    let text = numbered_lines(100);
    let chunks = s.chunk_file(&text, "f.py");
    let spans: Vec<(usize, usize)> = chunks.iter().map(|c| (c.start_line, c.end_line)).collect();
    assert_eq!(spans, vec![(1, 40), (31, 70), (61, 100)]);
    assert_eq!(chunks[1].id, "f.py:1");
    assert!(chunks[1].content.starts_with("line 31\n"));
    assert!(chunks[1].content.ends_with("\nline 70"));
}

#[test]
fn chunk_window_edges() {
    let s = RepoScanner::new();
    let spans = |n: usize| -> Vec<(usize, usize)> {
        s.chunk_file(&numbered_lines(n), "e.rs").iter().map(|c| (c.start_line, c.end_line)).collect()
    };
    assert_eq!(spans(40), vec![(1, 40)]);
    assert_eq!(spans(41), vec![(1, 40), (31, 41)]);
    assert_eq!(spans(70), vec![(1, 40), (31, 70)]);
    assert_eq!(spans(71), vec![(1, 40), (31, 70), (61, 71)]);
}

#[test]
fn chunk_blank_window_keeps_numbering_dense() {
    let s = RepoScanner::new();
    let mut lines: Vec<String> = Vec::new();
    for i in 0..100 {
        if (30..76).contains(&i) {
            lines.push("   ".to_string());
        } else {
            lines.push(format!("code {}", i));
        }
    }
    let text = lines.join("\n");
    let chunks = s.chunk_file(&text, "g.go");
    let got: Vec<(String, usize, usize)> = chunks.iter().map(|c| (c.id.clone(), c.start_line, c.end_line)).collect();
    assert_eq!(got, vec![("g.go:0".to_string(), 1, 40), ("g.go:1".to_string(), 61, 100)]);
}

#[test]
fn chunk_ids_past_nine() {
    let s = RepoScanner::new();
    let chunks = s.chunk_file(&numbered_lines(340), "h.rs");
    assert_eq!(chunks.len(), 11);
    assert_eq!(chunks[10].id, "h.rs:10");
    assert_eq!(chunks[10].start_line, 301);
    assert_eq!(chunks[10].end_line, 340);
}

#[test]
fn chunk_matches_reference() {
    let s = RepoScanner::new();
    let samples = [
        "".to_string(),
        "fn main() {}\n".to_string(),
        "a\r\nb\rc\r".to_string(),
        "é\u{a0}\n\u{2003}\n日本語\n\n\n".to_string(),
        numbered_lines(139),
        format!("{}\n{}", numbered_lines(35), "\t\n".repeat(50)),
    ];
    for text in samples.iter() {
        assert_eq!(as_tuples(&s.chunk_file(text, "dir/file.rs")), reference_chunks(text, "dir/file.rs"));
    }
}

#[test]
fn chunk_laws_on_samples() {
    let s = RepoScanner::new();
    let mut blanky: Vec<String> = Vec::new();
    for i in 0..200 {
        blanky.push(if i % 37 == 0 { format!("x{}", i) } else { " ".to_string() });
    }
    let samples = [numbered_lines(95), blanky.join("\n"), "a\n\n\nb\r\n".to_string()];
    for text in samples.iter() {
        let lines: Vec<&str> = text.lines().collect();
        let chunks = s.chunk_file(text, "p.rs");
        for (k, c) in chunks.iter().enumerate() {
            assert!(1 <= c.start_line && c.start_line <= c.end_line && c.end_line <= lines.len());
            assert!(c.end_line - c.start_line < CHUNK_LINES);
            assert_eq!(c.content, lines[c.start_line - 1..c.end_line].join("\n"));
            assert!(!c.content.trim().is_empty());
            assert_eq!(c.id, format!("p.rs:{}", k));
            if k > 0 {
                assert!(chunks[k - 1].start_line < c.start_line);
            }
        }
        for (j, line) in lines.iter().enumerate() {
            if !line.trim().is_empty() {
                assert!(chunks.iter().any(|c| c.start_line - 1 <= j && j < c.end_line), "line {}", j);
            }
        }
        for a in 0..chunks.len() {
            for b in (a + 1)..chunks.len() {
                assert_ne!(chunks[a].id, chunks[b].id);
            }
        }
    }
}

#[test]
fn ignored_directory_subtree_stays_ignored() {
    let s = RepoScanner::new();
    assert!(s.is_ignored(&comps(&["repo", "target"])));
    assert!(s.is_ignored(&comps(&["repo", "target", "debug", "deps", "x.rs"])));
    assert!(!s.is_ignored(&comps(&["repo", "src"])));
}
