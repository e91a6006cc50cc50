//! Repository scanning: which paths are skipped, which files are indexed, and
//! how a file's text is cut into overlapping fragments of lines.
use vstd::prelude::*;

use crate::text::{
    all_space, chars_of, decimal, is_blank, is_space, join, join_lines, lemma_decimal_injective,
    lemma_join_blank, lines_of, push_chars, push_decimal, split_lines, string_from_chars, views,
};

verus! {

/// Lines per fragment.
pub const CHUNK_LINES: usize = 40;

/// Lines that two neighbouring fragments share.
pub const CHUNK_OVERLAP: usize = 10;

/// A fragment of a source file: lines `start_line..=end_line` (1-based) of `file_path`.
#[derive(Debug, Clone)]
pub struct CodeChunk {
    pub id: String,
    pub file_path: String,
    pub start_line: usize,
    pub end_line: usize,
    pub content: String,
}

/// The mathematical model of a [`CodeChunk`].
pub struct ChunkView {
    pub id: Seq<char>,
    pub file_path: Seq<char>,
    pub start_line: nat,
    pub end_line: nat,
    pub content: Seq<char>,
}

impl View for CodeChunk {
    type V = ChunkView;

    open spec fn view(&self) -> ChunkView {
        ChunkView {
            id: self.id@,
            file_path: self.file_path@,
            start_line: self.start_line as nat,
            end_line: self.end_line as nat,
            content: self.content@,
        }
    }
}

/// The models of a sequence of chunks.
pub open spec fn chunk_views(v: Seq<CodeChunk>) -> Seq<ChunkView> {
    v.map_values(|c: CodeChunk| c@)
}

/// The identifier of the `k`-th kept fragment of the file at `path`: `"path:k"`.
pub open spec fn chunk_id(path: Seq<char>, k: nat) -> Seq<char> {
    path + seq![':'] + decimal(k)
}

/// The end (exclusive) of the window of lines that starts at `start`, in a file of `n` lines.
pub open spec fn window_end(start: nat, n: nat) -> nat {
    if start + CHUNK_LINES < n {
        (start + CHUNK_LINES) as nat
    } else {
        n
    }
}

/// The fragments of `lines` from the window that starts at line index `start` on,
/// numbered from `next_id`. Windows hold `CHUNK_LINES` lines (the last one may
/// hold fewer) and start `CHUNK_LINES - CHUNK_OVERLAP` lines apart; the last window
/// is the first that reaches the end of the file. A window whose text is blank
/// yields no fragment and takes no number.
pub open spec fn chunks_from(lines: Seq<Seq<char>>, path: Seq<char>, start: nat, next_id: nat) -> Seq<
    ChunkView,
>
    decreases lines.len() - start,
{
    if start >= lines.len() {
        seq![]
    } else {
        let end = window_end(start, lines.len());
        let text = join(lines.subrange(start as int, end as int), seq!['\n']);
        let next = (start + CHUNK_LINES - CHUNK_OVERLAP) as nat;
        if is_blank(text) {
            if end == lines.len() {
                seq![]
            } else {
                chunks_from(lines, path, next, next_id)
            }
        } else {
            let chunk = ChunkView {
                id: chunk_id(path, next_id),
                file_path: path,
                start_line: start + 1,
                end_line: end,
                content: text,
            };
            if end == lines.len() {
                seq![chunk]
            } else {
                seq![chunk] + chunks_from(lines, path, next, next_id + 1)
            }
        }
    }
}

/// The fragments of a file with text `content`, stored at `path` relative to the repository.
pub open spec fn chunks_of(content: Seq<char>, path: Seq<char>) -> Seq<ChunkView> {
    chunks_from(lines_of(content), path, 0, 0)
}

/// The directory names whose subtrees are never scanned.
pub open spec fn ignored_dir_names() -> Seq<Seq<char>> {
    seq![
        ".git"@,
        "node_modules"@,
        "target"@,
        "dist"@,
        "build"@,
        ".repomind"@,
        "vendor"@,
    ]
}

/// The file extensions (lower case) of the files that are indexed.
pub open spec fn valid_extension_names() -> Seq<Seq<char>> {
    seq![
        "rs"@,
        "go"@,
        "py"@,
        "js"@,
        "ts"@,
        "tsx"@,
        "jsx"@,
        "html"@,
        "css"@,
        "json"@,
        "toml"@,
        "yaml"@,
        "yml"@,
        "md"@,
        "dockerfile"@,
        "sh"@,
        "c"@,
        "cpp"@,
        "h"@,
        "java"@,
    ]
}

/// The views of a sequence of strings.
pub open spec fn string_views(v: Seq<String>) -> Seq<Seq<char>> {
    v.map_values(|s: String| s@)
}

/// A path, given by its components, lies in an ignored directory (or is one).
pub open spec fn is_ignored_path(components: Seq<Seq<char>>) -> bool {
    exists|i: int| 0 <= i < components.len() && ignored_dir_names().contains(#[trigger] components[i])
}

/// A path inside an ignored directory is ignored too: whatever components
/// follow, a path that is ignored stays ignored.
pub proof fn lemma_ignored_subtree(parent: Seq<Seq<char>>, rest: Seq<Seq<char>>)
    requires
        is_ignored_path(parent),
    ensures
        is_ignored_path(parent + rest),
{
    let i = choose|i: int| 0 <= i < parent.len() && ignored_dir_names().contains(#[trigger] parent[i]);
    assert((parent + rest)[i] == parent[i]);
}

/// A path is ignored exactly when one of its components is `.git`,
/// `node_modules`, `target`, `dist`, `build`, `.repomind` or `vendor`.
pub proof fn lemma_ignored_names(components: Seq<Seq<char>>)
    ensures
        is_ignored_path(components) <==> exists|i: int|
            0 <= i < components.len() && {
                let c = #[trigger] components[i];
                ||| c == ".git"@
                ||| c == "node_modules"@
                ||| c == "target"@
                ||| c == "dist"@
                ||| c == "build"@
                ||| c == ".repomind"@
                ||| c == "vendor"@
            },
{
    let names = ignored_dir_names();
    assert forall|c: Seq<char>| names.contains(c) <==> (c == ".git"@ || c == "node_modules"@ || c
        == "target"@ || c == "dist"@ || c == "build"@ || c == ".repomind"@ || c == "vendor"@) by {
        if names.contains(c) {
            let j = choose|j: int| 0 <= j < names.len() && names[j] == c;
            assert(0 <= j < 7);
        }
        if c == ".git"@ { assert(names[0] == c); }
        if c == "node_modules"@ { assert(names[1] == c); }
        if c == "target"@ { assert(names[2] == c); }
        if c == "dist"@ { assert(names[3] == c); }
        if c == "build"@ { assert(names[4] == c); }
        if c == ".repomind"@ { assert(names[5] == c); }
        if c == "vendor"@ { assert(names[6] == c); }
    }
}

/// An extension is indexed exactly when its lower-case form is one of `rs`,
/// `go`, `py`, `js`, `ts`, `tsx`, `jsx`, `html`, `css`, `json`, `toml`, `yaml`,
/// `yml`, `md`, `dockerfile`, `sh`, `c`, `cpp`, `h`, `java`.
pub proof fn lemma_valid_extension_names(e: Seq<char>)
    ensures
        valid_extension_names().contains(e) <==> {
            ||| e == "rs"@
            ||| e == "go"@
            ||| e == "py"@
            ||| e == "js"@
            ||| e == "ts"@
            ||| e == "tsx"@
            ||| e == "jsx"@
            ||| e == "html"@
            ||| e == "css"@
            ||| e == "json"@
            ||| e == "toml"@
            ||| e == "yaml"@
            ||| e == "yml"@
            ||| e == "md"@
            ||| e == "dockerfile"@
            ||| e == "sh"@
            ||| e == "c"@
            ||| e == "cpp"@
            ||| e == "h"@
            ||| e == "java"@
        },
{
    let names = valid_extension_names();
    if names.contains(e) {
        let j = choose|j: int| 0 <= j < names.len() && names[j] == e;
        assert(0 <= j < 20);
    }
    if e == "rs"@ { assert(names[0] == e); }
    if e == "go"@ { assert(names[1] == e); }
    if e == "py"@ { assert(names[2] == e); }
    if e == "js"@ { assert(names[3] == e); }
    if e == "ts"@ { assert(names[4] == e); }
    if e == "tsx"@ { assert(names[5] == e); }
    if e == "jsx"@ { assert(names[6] == e); }
    if e == "html"@ { assert(names[7] == e); }
    if e == "css"@ { assert(names[8] == e); }
    if e == "json"@ { assert(names[9] == e); }
    if e == "toml"@ { assert(names[10] == e); }
    if e == "yaml"@ { assert(names[11] == e); }
    if e == "yml"@ { assert(names[12] == e); }
    if e == "md"@ { assert(names[13] == e); }
    if e == "dockerfile"@ { assert(names[14] == e); }
    if e == "sh"@ { assert(names[15] == e); }
    if e == "c"@ { assert(names[16] == e); }
    if e == "cpp"@ { assert(names[17] == e); }
    if e == "h"@ { assert(names[18] == e); }
    if e == "java"@ { assert(names[19] == e); }
}

/// The Unicode lower-case form of a text, as std's `str::to_lowercase` computes it.
pub uninterp spec fn lowercase(s: Seq<char>) -> Seq<char>;

/// std's `str::to_lowercase`: its result is named by [`lowercase`] of the argument;
/// nothing more of Unicode's case mapping is stated.
#[verifier::external_body]
fn to_lowercase(s: &str) -> (res: String)
    ensures
        res@ == lowercase(s@),
{
    s.to_lowercase()
}

/// Whether `s` equals one of the strings of `list`.
fn contains_string(list: &Vec<String>, s: &String) -> (b: bool)
    ensures
        b == string_views(list@).contains(s@),
{
    let n = list.len();
    for i in 0..n
        invariant
            n == list@.len(),
            forall|j: int| 0 <= j < i ==> list@[j]@ != s@,
    {
        if list[i] == *s {
            assert(string_views(list@)[i as int] == s@);
            return true;
        }
    }
    assert forall|j: int| 0 <= j < string_views(list@).len() implies string_views(list@)[j] != s@ by {
        assert(string_views(list@)[j] == list@[j]@);
    }
    false
}

/// Scans repositories: skips ignored directories, keeps files by extension and
/// cuts their text into fragments.
pub struct RepoScanner {
    ignored_dirs: Vec<String>,
    valid_extensions: Vec<String>,
}

impl RepoScanner {
    /// The scanner holds exactly the fixed ignore and extension lists.
    #[verifier::type_invariant]
    spec fn holds_fixed_lists(self) -> bool {
        &&& string_views(self.ignored_dirs@) == ignored_dir_names()
        &&& string_views(self.valid_extensions@) == valid_extension_names()
    }

    /// The scanner with the fixed lists of ignored directories and indexed extensions.
    pub fn new() -> (res: Self)
        ensures
            res.ignored_dirs() == ignored_dir_names(),
            res.valid_extensions() == valid_extension_names(),
    {
        let ignored_dirs: Vec<String> = vec![
            ".git".to_owned(),
            "node_modules".to_owned(),
            "target".to_owned(),
            "dist".to_owned(),
            "build".to_owned(),
            ".repomind".to_owned(),
            "vendor".to_owned(),
        ];
        let valid_extensions: Vec<String> = vec![
            "rs".to_owned(),
            "go".to_owned(),
            "py".to_owned(),
            "js".to_owned(),
            "ts".to_owned(),
            "tsx".to_owned(),
            "jsx".to_owned(),
            "html".to_owned(),
            "css".to_owned(),
            "json".to_owned(),
            "toml".to_owned(),
            "yaml".to_owned(),
            "yml".to_owned(),
            "md".to_owned(),
            "dockerfile".to_owned(),
            "sh".to_owned(),
            "c".to_owned(),
            "cpp".to_owned(),
            "h".to_owned(),
            "java".to_owned(),
        ];
        assert(string_views(ignored_dirs@) =~= ignored_dir_names());
        assert(string_views(valid_extensions@) =~= valid_extension_names());
        RepoScanner { ignored_dirs, valid_extensions }
    }

    /// The names of the directories that this scanner skips.
    pub closed spec fn ignored_dirs(self) -> Seq<Seq<char>> {
        string_views(self.ignored_dirs@)
    }

    /// The extensions of the files that this scanner indexes.
    pub closed spec fn valid_extensions(self) -> Seq<Seq<char>> {
        string_views(self.valid_extensions@)
    }

    /// Whether a path, given by its components, lies in an ignored directory:
    /// some component is one of the ignored directory names.
    pub fn is_ignored(&self, components: &Vec<String>) -> (res: bool)
        ensures
            res == is_ignored_path(string_views(components@)),
    {
        proof {
            use_type_invariant(self);
        }
        let n = components.len();
        for i in 0..n
            invariant
                n == components@.len(),
                string_views(self.ignored_dirs@) == ignored_dir_names(),
                forall|j: int|
                    0 <= j < i ==> !ignored_dir_names().contains(#[trigger] components@[j]@),
        {
            if contains_string(&self.ignored_dirs, &components[i]) {
                assert(string_views(components@)[i as int] == components@[i as int]@);
                return true;
            }
        }
        assert forall|j: int| 0 <= j < string_views(components@).len() implies !ignored_dir_names().contains(
            #[trigger] string_views(components@)[j],
        ) by {
            assert(string_views(components@)[j] == components@[j]@);
        }
        false
    }

    /// Whether a file extension is indexed: its lower-case form is one of the
    /// indexed extensions.
    pub fn is_valid_extension(&self, extension: &str) -> (res: bool)
        ensures
            res == valid_extension_names().contains(lowercase(extension@)),
    {
        proof {
            use_type_invariant(self);
        }
        let lower = to_lowercase(extension);
        contains_string(&self.valid_extensions, &lower)
    }

    /// Whether a file is indexed: it lies in no ignored directory and has an
    /// indexed extension.
    pub fn accepts_file(&self, components: &Vec<String>, extension: Option<&str>) -> (res: bool)
        ensures
            res == (!is_ignored_path(string_views(components@)) && match extension {
                Some(e) => valid_extension_names().contains(lowercase(e@)),
                None => false,
            }),
    {
        if self.is_ignored(components) {
            return false;
        }
        match extension {
            Some(e) => self.is_valid_extension(e),
            None => false,
        }
    }

    /// Cuts the text of a file into fragments: windows of `CHUNK_LINES` lines that
    /// start `CHUNK_LINES - CHUNK_OVERLAP` lines apart, blank windows left out, the
    /// kept ones numbered from 0 in their identifiers.
    pub fn chunk_file(&self, content: &str, rel_path: &str) -> (res: Vec<CodeChunk>)
        ensures
            chunk_views(res@) == chunks_of(content@, rel_path@),
    {
        let chars = chars_of(content);
        let lines = split_lines(&chars);
        let ghost ls = views(lines@);
        let n = lines.len();
        let mut chunks: Vec<CodeChunk> = Vec::new();
        if n == 0 {
            assert(chunk_views(chunks@) =~= chunks_of(content@, rel_path@));
            return chunks;
        }
        let path = chars_of(rel_path);
        let mut i: usize = 0;
        let mut next_id: usize = 0;
        loop
            invariant_except_break
                i < n,
                next_id <= i,
                chunk_views(chunks@) + chunks_from(ls, rel_path@, i as nat, next_id as nat)
                    == chunks_of(content@, rel_path@),
            invariant
                n == lines@.len(),
                ls == views(lines@),
                ls == lines_of(content@),
                path@ == rel_path@,
            ensures
                chunk_views(chunks@) == chunks_of(content@, rel_path@),
            decreases n - i,
        {
            let end: usize = if n - i > CHUNK_LINES { i + CHUNK_LINES } else { n };
            assert(end == window_end(i as nat, n as nat));
            let text = join_lines(&lines, i, end);
            let ghost before = chunk_views(chunks@);
            let ghost from_here = chunks_from(ls, rel_path@, i as nat, next_id as nat);
            let ghost next = (i + CHUNK_LINES - CHUNK_OVERLAP) as nat;
            let ghost id_before = next_id as nat;
            if !all_space(&text) {
                let mut id: Vec<char> = Vec::new();
                push_chars(&mut id, &path);
                id.push(':');
                push_decimal(&mut id, next_id);
                let chunk = CodeChunk {
                    id: string_from_chars(&id),
                    file_path: rel_path.to_owned(),
                    start_line: i + 1,
                    end_line: end,
                    content: string_from_chars(&text),
                };
                assert(chunk@.id =~= chunk_id(rel_path@, id_before));
                let ghost cv = ChunkView {
                    id: chunk_id(rel_path@, id_before),
                    file_path: rel_path@,
                    start_line: (i + 1) as nat,
                    end_line: end as nat,
                    content: text@,
                };
                assert(chunk@ == cv);
                chunks.push(chunk);
                assert(chunk_views(chunks@) =~= before.push(cv));
                next_id = next_id + 1;
                proof {
                    if end == n {
                        assert(from_here == seq![cv]);
                        assert(chunk_views(chunks@) =~= before + from_here);
                    } else {
                        assert(from_here == seq![cv] + chunks_from(ls, rel_path@, next, id_before + 1));
                        assert(before + from_here =~= chunk_views(chunks@) + chunks_from(
                            ls,
                            rel_path@,
                            next,
                            id_before + 1,
                        ));
                    }
                }
            } else {
                proof {
                    if end == n {
                        assert(from_here == Seq::<ChunkView>::empty());
                        assert(chunk_views(chunks@) =~= before + from_here);
                    } else {
                        assert(from_here == chunks_from(ls, rel_path@, next, id_before));
                    }
                }
            }
            if end == n {
                break;
            }
            i = i + (CHUNK_LINES - CHUNK_OVERLAP);
        }
        chunks
    }
}

/// A fragment of `lines` at `path`: a non-blank run of at most `CHUNK_LINES`
/// lines, 1-based and inclusive, whose content is those lines joined with `'\n'`.
pub open spec fn well_shaped(c: ChunkView, lines: Seq<Seq<char>>, path: Seq<char>) -> bool {
    &&& 1 <= c.start_line <= c.end_line <= lines.len()
    &&& c.end_line - c.start_line < CHUNK_LINES
    &&& c.content == join(lines.subrange(c.start_line - 1, c.end_line as int), seq!['\n'])
    &&& !is_blank(c.content)
    &&& c.file_path == path
}

/// Every fragment is well shaped and numbered by its place from `first_id` on,
/// starts after line `min_start`, and the fragments come in increasing order of
/// their first line.
pub open spec fn chunk_list_shaped(
    r: Seq<ChunkView>,
    lines: Seq<Seq<char>>,
    path: Seq<char>,
    first_id: nat,
    min_start: nat,
) -> bool {
    &&& forall|k: int|
        0 <= k < r.len() ==> {
            &&& well_shaped(#[trigger] r[k], lines, path)
            &&& r[k].id == chunk_id(path, (first_id + k) as nat)
            &&& r[k].start_line > min_start
        }
    &&& forall|a: int, b: int| 0 <= a < b < r.len() ==> #[trigger] r[a].start_line < #[trigger] r[b].start_line
}

proof fn lemma_chunks_from_shaped(lines: Seq<Seq<char>>, path: Seq<char>, start: nat, id: nat)
    ensures
        chunk_list_shaped(chunks_from(lines, path, start, id), lines, path, id, start),
    decreases lines.len() - start,
{
    let r = chunks_from(lines, path, start, id);
    if start < lines.len() {
        let n = lines.len();
        let end = window_end(start, n);
        let text = join(lines.subrange(start as int, end as int), seq!['\n']);
        let next = (start + CHUNK_LINES - CHUNK_OVERLAP) as nat;
        if is_blank(text) {
            if end < n {
                lemma_chunks_from_shaped(lines, path, next, id);
            }
        } else if end < n {
            lemma_chunks_from_shaped(lines, path, next, id + 1);
            let rest = chunks_from(lines, path, next, id + 1);
            assert(r == seq![r[0]] + rest);
            assert forall|k: int| 1 <= k < r.len() implies #[trigger] r[k] == rest[k - 1] by {}
            assert forall|k: int| 0 <= k < r.len() implies {
                &&& well_shaped(#[trigger] r[k], lines, path)
                &&& r[k].id == chunk_id(path, (id + k) as nat)
                &&& r[k].start_line > start
            } by {
                if k > 0 {
                    assert(r[k] == rest[k - 1]);
                }
            }
            assert forall|a: int, b: int| 0 <= a < b < r.len() implies #[trigger] r[a].start_line
                < #[trigger] r[b].start_line by {
                assert(r[b] == rest[b - 1]);
                if a > 0 {
                    assert(r[a] == rest[a - 1]);
                }
            }
        }
    }
}

/// Every fragment of a file is a non-blank run of at most `CHUNK_LINES` of its
/// lines, whose content is exactly those lines joined with `'\n'`; the `k`-th
/// fragment is identified as `"path:k"`; fragments come in increasing order of
/// their first line.
pub proof fn lemma_chunks_shaped(content: Seq<char>, path: Seq<char>)
    ensures
        chunk_list_shaped(chunks_of(content, path), lines_of(content), path, 0, 0),
{
    lemma_chunks_from_shaped(lines_of(content), path, 0, 0);
}

proof fn lemma_chunks_from_cover(lines: Seq<Seq<char>>, path: Seq<char>, start: nat, id: nat, j: int)
    requires
        start <= j < lines.len(),
        !is_blank(lines[j]),
    ensures
        exists|k: int|
            0 <= k < chunks_from(lines, path, start, id).len() && #[trigger] chunks_from(
                lines,
                path,
                start,
                id,
            )[k].start_line - 1 <= j < chunks_from(lines, path, start, id)[k].end_line,
    decreases lines.len() - start,
{
    let r = chunks_from(lines, path, start, id);
    let n = lines.len();
    let end = window_end(start, n);
    let window = lines.subrange(start as int, end as int);
    let text = join(window, seq!['\n']);
    let next = (start + CHUNK_LINES - CHUNK_OVERLAP) as nat;
    if j < end {
        if is_blank(text) {
            lemma_join_blank(window, seq!['\n'], j - start);
            assert(window[j - start] == lines[j]);
        }
        assert(r[0].start_line - 1 <= j < r[0].end_line);
    } else {
        if is_blank(text) {
            lemma_chunks_from_cover(lines, path, next, id, j);
        } else {
            lemma_chunks_from_cover(lines, path, next, id + 1, j);
            let rest = chunks_from(lines, path, next, id + 1);
            let k = choose|k: int| 0 <= k < rest.len() && #[trigger] rest[k].start_line - 1 <= j < rest[k].end_line;
            assert(r == seq![r[0]] + rest);
            assert(r[k + 1] == rest[k]);
        }
    }
}

/// No line that holds a non-space character is lost: each lies within some fragment.
pub proof fn lemma_chunks_cover(content: Seq<char>, path: Seq<char>, j: int)
    requires
        0 <= j < lines_of(content).len(),
        !is_blank(lines_of(content)[j]),
    ensures
        exists|k: int|
            0 <= k < chunks_of(content, path).len() && #[trigger] chunks_of(content, path)[k].start_line
                - 1 <= j < chunks_of(content, path)[k].end_line,
{
    lemma_chunks_from_cover(lines_of(content), path, 0, 0, j);
    let r = chunks_from(lines_of(content), path, 0, 0);
    let k = choose|k: int| 0 <= k < r.len() && #[trigger] r[k].start_line - 1 <= j < r[k].end_line;
    assert(chunks_of(content, path)[k] == r[k]);
}

/// The fragments of one file have pairwise distinct identifiers.
pub proof fn lemma_chunk_ids_distinct(content: Seq<char>, path: Seq<char>, a: int, b: int)
    requires
        0 <= a < b < chunks_of(content, path).len(),
    ensures
        chunks_of(content, path)[a].id != chunks_of(content, path)[b].id,
{
    let r = chunks_of(content, path);
    lemma_chunks_shaped(content, path);
    assert(r[a].id == chunk_id(path, a as nat));
    assert(r[b].id == chunk_id(path, b as nat));
    if r[a].id == r[b].id {
        let ia = r[a].id;
        assert(ia.subrange(path.len() + 1int, ia.len() as int) =~= decimal(a as nat));
        assert(r[b].id.subrange(path.len() + 1int, r[b].id.len() as int) =~= decimal(b as nat));
        lemma_decimal_injective(a as nat, b as nat);
    }
}

/// The text of the window of 40 lines that starts at line index `s` (fewer
/// lines when the file ends before), joined with `'\n'`.
pub open spec fn window_text(lines: Seq<Seq<char>>, s: nat) -> Seq<char> {
    join(
        lines.subrange(s as int, if s + 40 < lines.len() { (s + 40) as int } else { lines.len() as int }),
        seq!['\n'],
    )
}

/// A window start that the scan reaches: the first one, or one whose previous
/// window (30 lines earlier, 40 lines long) ended before the end of the file.
pub open spec fn window_reached(n: nat, first: nat, s: nat) -> bool {
    s == first || s + 10 < n
}

proof fn lemma_windows_from(lines: Seq<Seq<char>>, path: Seq<char>, start: nat, id: nat)
    requires
        start % 30 == 0,
    ensures
        forall|k: int|
            0 <= k < chunks_from(lines, path, start, id).len() ==> {
                let c = #[trigger] chunks_from(lines, path, start, id)[k];
                &&& (c.start_line - 1) % 30 == 0
                &&& c.start_line - 1 >= start
                &&& window_reached(lines.len(), start, (c.start_line - 1) as nat)
                &&& c.end_line == if c.start_line - 1 + 40 < lines.len() {
                    c.start_line - 1 + 40
                } else {
                    lines.len() as int
                }
            },
        forall|s: nat|
            start <= s < lines.len() && s % 30 == 0 && window_reached(lines.len(), start, s)
                && !is_blank(#[trigger] window_text(lines, s)) ==> exists|k: int|
                0 <= k < chunks_from(lines, path, start, id).len() && chunks_from(
                    lines,
                    path,
                    start,
                    id,
                )[k].start_line == s + 1,
    decreases lines.len() - start,
{
    let r = chunks_from(lines, path, start, id);
    let n = lines.len();
    if start < n {
        let end = window_end(start, n);
        let text = join(lines.subrange(start as int, end as int), seq!['\n']);
        let next = (start + CHUNK_LINES - CHUNK_OVERLAP) as nat;
        assert(window_text(lines, start) == text);
        assert(start == 30 * (start / 30));
        if end < n {
            assert(next % 30 == 0);
            if is_blank(text) {
                lemma_windows_from(lines, path, next, id);
                assert(r == chunks_from(lines, path, next, id));
                assert forall|s: nat|
                    start <= s < n && s % 30 == 0 && window_reached(n, start, s) && !is_blank(
                        #[trigger] window_text(lines, s),
                    ) implies exists|k: int| 0 <= k < r.len() && r[k].start_line == s + 1 by {
                    assert(s == 30 * (s / 30));
                    assert(s != start);
                    assert(s >= next);
                }
            } else {
                lemma_windows_from(lines, path, next, id + 1);
                let rest = chunks_from(lines, path, next, id + 1);
                assert(r == seq![r[0]] + rest);
                assert forall|k: int| 1 <= k < r.len() implies #[trigger] r[k] == rest[k - 1] by {}
                assert forall|k: int| 0 <= k < r.len() implies {
                    let c = #[trigger] r[k];
                    &&& (c.start_line - 1) % 30 == 0
                    &&& c.start_line - 1 >= start
                    &&& window_reached(n, start, (c.start_line - 1) as nat)
                    &&& c.end_line == if c.start_line - 1 + 40 < n {
                        c.start_line - 1 + 40
                    } else {
                        n as int
                    }
                } by {
                    if k > 0 {
                        assert(r[k] == rest[k - 1]);
                    }
                }
                assert forall|s: nat|
                    start <= s < n && s % 30 == 0 && window_reached(n, start, s) && !is_blank(
                        #[trigger] window_text(lines, s),
                    ) implies exists|k: int| 0 <= k < r.len() && r[k].start_line == s + 1 by {
                    if s == start {
                        assert(r[0].start_line == s + 1);
                    } else {
                        assert(s == 30 * (s / 30));
                        assert(s >= next);
                        let k = choose|k: int| 0 <= k < rest.len() && rest[k].start_line == s + 1;
                        assert(r[k + 1] == rest[k]);
                    }
                }
            }
        } else {
            assert forall|s: nat|
                start <= s < n && s % 30 == 0 && window_reached(n, start, s) && !is_blank(
                    #[trigger] window_text(lines, s),
                ) implies exists|k: int| 0 <= k < r.len() && r[k].start_line == s + 1 by {
                assert(s == 30 * (s / 30));
                if s != start {
                    assert(s >= start + 30);
                }
                assert(r[0].start_line == s + 1);
            }
        }
    }
}

/// The windows of the scan are 40 lines long and start 30 lines apart, so each
/// overlaps the one before by 10 lines: every fragment starts at a line index
/// that is a multiple of 30, holds the 40 lines from there (fewer only where the
/// file ends), and is a window the scan reaches (the first, or one whose previous
/// window ended before the end of the file); and every reached window whose text
/// is not blank is a fragment.
pub proof fn lemma_chunk_windows(content: Seq<char>, path: Seq<char>)
    ensures
        forall|k: int|
            0 <= k < chunks_of(content, path).len() ==> {
                let c = #[trigger] chunks_of(content, path)[k];
                let n = lines_of(content).len();
                &&& (c.start_line - 1) % 30 == 0
                &&& (c.start_line == 1 || c.start_line - 1 + 10 < n)
                &&& c.end_line == if c.start_line - 1 + 40 < n {
                    c.start_line - 1 + 40
                } else {
                    n as int
                }
            },
        forall|s: nat|
            s < lines_of(content).len() && s % 30 == 0 && (s == 0 || s + 10 < lines_of(content).len())
                && !is_blank(#[trigger] window_text(lines_of(content), s)) ==> exists|k: int|
                0 <= k < chunks_of(content, path).len() && chunks_of(content, path)[k].start_line
                    == s + 1,
{
    let lines = lines_of(content);
    lemma_windows_from(lines, path, 0, 0);
    let r = chunks_from(lines, path, 0, 0);
    assert forall|k: int| 0 <= k < chunks_of(content, path).len() implies {
        let c = #[trigger] chunks_of(content, path)[k];
        let n = lines_of(content).len();
        &&& (c.start_line - 1) % 30 == 0
        &&& (c.start_line == 1 || c.start_line - 1 + 10 < n)
        &&& c.end_line == if c.start_line - 1 + 40 < n {
            c.start_line - 1 + 40
        } else {
            n as int
        }
    } by {
        assert(chunks_of(content, path)[k] == r[k]);
    }
    assert forall|s: nat|
        s < lines.len() && s % 30 == 0 && (s == 0 || s + 10 < lines.len()) && !is_blank(
            #[trigger] window_text(lines, s),
        ) implies exists|k: int| 0 <= k < chunks_of(content, path).len() && chunks_of(
        content,
        path,
    )[k].start_line == s + 1 by {
        assert(window_reached(lines.len(), 0, s));
        let k = choose|k: int| 0 <= k < r.len() && r[k].start_line == s + 1;
        assert(chunks_of(content, path)[k] == r[k]);
    }
}

/// The `k`-th fragment of a file at `path` is named `path:k` (the decimal
/// numeral of `k`), records `path`, and holds exactly its lines, from
/// `start_line` to `end_line` (1-based, inclusive), joined with `'\n'`; that text
/// is not blank.
pub proof fn lemma_chunk_fields(content: Seq<char>, path: Seq<char>)
    ensures
        forall|k: int|
            0 <= k < chunks_of(content, path).len() ==> {
                let c = #[trigger] chunks_of(content, path)[k];
                &&& c.id == path + seq![':'] + decimal(k as nat)
                &&& c.file_path == path
                &&& 1 <= c.start_line <= c.end_line <= lines_of(content).len()
                &&& c.content == join(
                    lines_of(content).subrange(c.start_line - 1, c.end_line as int),
                    seq!['\n'],
                )
                &&& exists|i: int| 0 <= i < c.content.len() && !is_space(c.content[i])
            },
{
    lemma_chunks_shaped(content, path);
    let r = chunks_of(content, path);
    assert forall|k: int| 0 <= k < r.len() implies {
        let c = #[trigger] r[k];
        &&& c.id == path + seq![':'] + decimal(k as nat)
        &&& c.file_path == path
        &&& 1 <= c.start_line <= c.end_line <= lines_of(content).len()
        &&& c.content == join(
            lines_of(content).subrange(c.start_line - 1, c.end_line as int),
            seq!['\n'],
        )
        &&& exists|i: int| 0 <= i < c.content.len() && !is_space(c.content[i])
    } by {
        assert(well_shaped(r[k], lines_of(content), path));
        assert(r[k].id == chunk_id(path, (0 + k) as nat));
    }
}

} // verus!
