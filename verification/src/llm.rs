//! The question-answering client: the prompt sent to the language model, and the
//! answer given when the model cannot be reached.
use vstd::prelude::*;

use crate::scanner::{chunk_views, ChunkView, CodeChunk};
use crate::text::{decimal, join, lemma_join_flatten, push_decimal, push_str, string_from_chars};

verus! {

/// The header of the `idx`-th (0-based) fragment in the prompt's context, followed by its text.
pub open spec fn context_entry(idx: nat, c: ChunkView) -> Seq<char> {
    "--- Fragmento #"@ + decimal(idx + 1) + " [Archivo: "@ + c.file_path + " | Líneas "@ + decimal(
        c.start_line,
    ) + "-"@ + decimal(c.end_line) + "] ---\n"@ + c.content + "\n\n"@
}

/// The context section of the prompt: every fragment, numbered from 1, in order.
pub open spec fn context_text(cs: Seq<ChunkView>) -> Seq<char>
    decreases cs.len(),
{
    if cs.len() == 0 {
        seq![]
    } else {
        context_text(cs.drop_last()) + context_entry((cs.len() - 1) as nat, cs.last())
    }
}

/// The instructions that open every prompt.
pub open spec fn prompt_intro() -> Seq<char> {
    "Eres RepoMind, un asistente experto en ingeniería de software. Basándote ÚNICAMENTE en el siguiente contexto de código fuente, responde de manera clara, estructurada y precisa a la pregunta del usuario.\n\n### CONTEXTO DE CÓDIGO FUENTE:\n"@
}

/// The prompt for `query` over the fragments `cs`.
pub open spec fn prompt_text(query: Seq<char>, cs: Seq<ChunkView>) -> Seq<char> {
    prompt_intro() + context_text(cs) + "\n\n### PREGUNTA DEL USUARIO:\n"@ + query
        + "\n\n### RESPUESTA TÉCNICA:"@
}

/// One line of the fragment listing in the demonstration answer.
pub open spec fn listing_entry(c: ChunkView) -> Seq<char> {
    "- `"@ + c.file_path + "` (Líneas "@ + decimal(c.start_line) + "-"@ + decimal(c.end_line) + ")"@
}

/// The listing of the fragments, one line each.
pub open spec fn listing_text(cs: Seq<ChunkView>) -> Seq<char> {
    join(Seq::new(cs.len(), |i: int| listing_entry(cs[i])), seq!['\n'])
}

/// The answer given without a language model: it names the question, lists the
/// fragments found and tells how to start the model.
pub open spec fn demo_text(query: Seq<char>, cs: Seq<ChunkView>, model: Seq<char>) -> Seq<char> {
    "💡 [Modo Demostración RepoMind]\n\nHe localizado los fragmentos de código más relevantes en tu repositorio para responder a: \""@
        + query + "\"\n\n📌 **Fragmentos clave encontrados:**\n"@ + listing_text(cs)
        + "\n\nℹ️ *Tip: Para respuestas generadas por IA en tiempo real, ejecuta Ollama en segundo plano (`ollama run "@
        + model + "`) o usa Docker Compose (`docker compose up -d`).*"@
}

/// The body of a generation request to the model server.
pub struct GenerateRequest {
    pub model: String,
    pub prompt: String,
    pub stream: bool,
}

/// Asks a language model served at `base_url` about code fragments.
pub struct LlmClient {
    base_url: String,
    model: String,
}

impl LlmClient {
    /// The server address this client talks to.
    pub closed spec fn base_url(self) -> Seq<char> {
        self.base_url@
    }

    /// The model this client asks.
    pub closed spec fn model(self) -> Seq<char> {
        self.model@
    }

    /// A client for `model` on the server at `base_url`.
    pub fn new(base_url: String, model: String) -> (res: Self)
        ensures
            res.base_url() == base_url@,
            res.model() == model@,
    {
        LlmClient { base_url, model }
    }

    /// The address of the server's generation endpoint.
    pub fn generate_url(&self) -> (res: String)
        ensures
            res@ == self.base_url() + "/api/generate"@,
    {
        let mut out: Vec<char> = Vec::new();
        push_str(&mut out, self.base_url.as_str());
        push_str(&mut out, "/api/generate");
        string_from_chars(&out)
    }

    /// The context section: each fragment under a numbered header that names its
    /// file and lines.
    pub fn build_context(chunks: &[CodeChunk]) -> (res: String)
        ensures
            res@ == context_text(chunk_views(chunks@)),
    {
        let mut out: Vec<char> = Vec::new();
        let n = chunks.len();
        for idx in 0..n
            invariant
                n == chunks@.len(),
                out@ == context_text(chunk_views(chunks@).take(idx as int)),
        {
            let chunk = &chunks[idx];
            let ghost before = out@;
            push_str(&mut out, "--- Fragmento #");
            push_decimal(&mut out, idx + 1);
            push_str(&mut out, " [Archivo: ");
            push_str(&mut out, chunk.file_path.as_str());
            push_str(&mut out, " | Líneas ");
            push_decimal(&mut out, chunk.start_line);
            push_str(&mut out, "-");
            push_decimal(&mut out, chunk.end_line);
            push_str(&mut out, "] ---\n");
            push_str(&mut out, chunk.content.as_str());
            push_str(&mut out, "\n\n");
            let ghost cs = chunk_views(chunks@).take(idx + 1);
            assert(cs.drop_last() =~= chunk_views(chunks@).take(idx as int));
            assert(cs.last() == chunk@);
            assert(out@ =~= before + context_entry(idx as nat, chunk@));
        }
        assert(chunk_views(chunks@).take(n as int) =~= chunk_views(chunks@));
        string_from_chars(&out)
    }

    /// The prompt for `query`: instructions, the context of the fragments, the question.
    pub fn build_prompt(query: &str, chunks: &[CodeChunk]) -> (res: String)
        ensures
            res@ == prompt_text(query@, chunk_views(chunks@)),
    {
        let context = Self::build_context(chunks);
        let mut out: Vec<char> = Vec::new();
        push_str(
            &mut out,
            "Eres RepoMind, un asistente experto en ingeniería de software. Basándote ÚNICAMENTE en el siguiente contexto de código fuente, responde de manera clara, estructurada y precisa a la pregunta del usuario.\n\n### CONTEXTO DE CÓDIGO FUENTE:\n",
        );
        push_str(&mut out, context.as_str());
        push_str(&mut out, "\n\n### PREGUNTA DEL USUARIO:\n");
        push_str(&mut out, query);
        push_str(&mut out, "\n\n### RESPUESTA TÉCNICA:");
        string_from_chars(&out)
    }

    /// The request that asks this client's model about `query`, without streaming.
    pub fn generate_request(&self, query: &str, chunks: &[CodeChunk]) -> (res: GenerateRequest)
        ensures
            res.model@ == self.model(),
            res.prompt@ == prompt_text(query@, chunk_views(chunks@)),
            !res.stream,
    {
        GenerateRequest {
            model: self.model.clone(),
            prompt: Self::build_prompt(query, chunks),
            stream: false,
        }
    }

    /// The listing of the fragments: one line per fragment with its file and lines.
    fn build_listing(chunks: &[CodeChunk]) -> (res: Vec<char>)
        ensures
            res@ == listing_text(chunk_views(chunks@)),
    {
        let ghost cs = chunk_views(chunks@);
        let ghost entries = Seq::new(cs.len(), |i: int| listing_entry(cs[i]));
        let mut out: Vec<char> = Vec::new();
        let n = chunks.len();
        for i in 0..n
            invariant
                n == chunks@.len(),
                cs == chunk_views(chunks@),
                entries == Seq::new(cs.len(), |i: int| listing_entry(cs[i])),
                out@ == join(entries.take(i as int), seq!['\n']),
        {
            let chunk = &chunks[i];
            let ghost before = out@;
            if i > 0 {
                out.push('\n');
            }
            let ghost with_sep = out@;
            push_str(&mut out, "- `");
            push_str(&mut out, chunk.file_path.as_str());
            push_str(&mut out, "` (Líneas ");
            push_decimal(&mut out, chunk.start_line);
            push_str(&mut out, "-");
            push_decimal(&mut out, chunk.end_line);
            push_str(&mut out, ")");
            assert(entries.take(i + 1).drop_last() =~= entries.take(i as int));
            assert(entries[i as int] == listing_entry(chunk@));
            assert(out@ =~= with_sep + listing_entry(chunk@));
            if i > 0 {
                assert(with_sep =~= before + seq!['\n']);
            } else {
                assert(entries.take(1) =~= seq![entries[0]]);
            }
        }
        assert(entries.take(n as int) =~= entries);
        out
    }

    /// The answer given when the model cannot be reached.
    pub fn demo_answer(&self, query: &str, chunks: &[CodeChunk]) -> (res: String)
        ensures
            res@ == demo_text(query@, chunk_views(chunks@), self.model()),
    {
        let listing = Self::build_listing(chunks);
        let mut out: Vec<char> = Vec::new();
        push_str(
            &mut out,
            "💡 [Modo Demostración RepoMind]\n\nHe localizado los fragmentos de código más relevantes en tu repositorio para responder a: \"",
        );
        push_str(&mut out, query);
        push_str(&mut out, "\"\n\n📌 **Fragmentos clave encontrados:**\n");
        crate::text::push_chars(&mut out, &listing);
        push_str(
            &mut out,
            "\n\nℹ️ *Tip: Para respuestas generadas por IA en tiempo real, ejecuta Ollama en segundo plano (`ollama run ",
        );
        push_str(&mut out, self.model.as_str());
        push_str(&mut out, "`) o usa Docker Compose (`docker compose up -d`).*");
        string_from_chars(&out)
    }

    /// The answer to `query`: the model's reply where it gave one, else the
    /// demonstration answer over the same fragments.
    pub fn answer_from_reply(&self, reply: Option<String>, query: &str, chunks: &[CodeChunk]) -> (res:
        String)
        ensures
            match reply {
                Some(r) => res@ == r@,
                None => res@ == demo_text(query@, chunk_views(chunks@), self.model()),
            },
    {
        match reply {
            Some(r) => r,
            None => self.demo_answer(query, chunks),
        }
    }
}

/// The context holds every fragment, in order and once each: it is the
/// concatenation, over all `k` below the number of fragments, of the header
/// `--- Fragmento #k+1 [Archivo: path | Líneas start-end] ---`, a line break, the
/// fragment's text and a blank line.
pub proof fn lemma_context_lists_every_fragment(cs: Seq<ChunkView>)
    ensures
        context_text(cs) == Seq::new(
            cs.len(),
            |k: int|
                "--- Fragmento #"@ + decimal((k + 1) as nat) + " [Archivo: "@ + cs[k].file_path
                    + " | Líneas "@ + decimal(cs[k].start_line) + "-"@ + decimal(cs[k].end_line)
                    + "] ---\n"@ + cs[k].content + "\n\n"@,
        ).flatten(),
    decreases cs.len(),
{
    let all = Seq::new(
        cs.len(),
        |k: int|
            "--- Fragmento #"@ + decimal((k + 1) as nat) + " [Archivo: "@ + cs[k].file_path
                + " | Líneas "@ + decimal(cs[k].start_line) + "-"@ + decimal(cs[k].end_line)
                + "] ---\n"@ + cs[k].content + "\n\n"@,
    );
    all.lemma_flatten_and_flatten_alt_are_equivalent();
    if cs.len() == 0 {
        assert(all.flatten_alt() =~= Seq::<char>::empty());
    } else {
        let front = cs.drop_last();
        lemma_context_lists_every_fragment(front);
        let fall = Seq::new(
            front.len(),
            |k: int|
                "--- Fragmento #"@ + decimal((k + 1) as nat) + " [Archivo: "@ + front[k].file_path
                    + " | Líneas "@ + decimal(front[k].start_line) + "-"@ + decimal(
                    front[k].end_line,
                ) + "] ---\n"@ + front[k].content + "\n\n"@,
        );
        fall.lemma_flatten_and_flatten_alt_are_equivalent();
        assert(all.drop_last() =~= fall);
        assert(all.last() == context_entry((cs.len() - 1) as nat, cs.last()));
        assert(all.flatten_alt() == all.drop_last().flatten_alt() + all.last());
    }
}

/// The listing has one line per fragment, in order and once each: it is the
/// concatenation, over all `k` below the number of fragments, of a line break
/// (except before the first) and `` - `path` (Líneas start-end)``.
pub proof fn lemma_listing_lists_every_fragment(cs: Seq<ChunkView>)
    ensures
        listing_text(cs) == Seq::new(
            cs.len(),
            |k: int|
                (if k == 0 {
                    Seq::<char>::empty()
                } else {
                    seq!['\n']
                }) + ("- `"@ + cs[k].file_path + "` (Líneas "@ + decimal(cs[k].start_line) + "-"@
                    + decimal(cs[k].end_line) + ")"@),
        ).flatten(),
{
    let entries = Seq::new(cs.len(), |i: int| listing_entry(cs[i]));
    lemma_join_flatten(entries, seq!['\n']);
    let a = Seq::new(
        entries.len(),
        |k: int| if k == 0 { entries[k] } else { seq!['\n'] + entries[k] },
    );
    let b = Seq::new(
        cs.len(),
        |k: int|
            (if k == 0 {
                Seq::<char>::empty()
            } else {
                seq!['\n']
            }) + ("- `"@ + cs[k].file_path + "` (Líneas "@ + decimal(cs[k].start_line) + "-"@
                + decimal(cs[k].end_line) + ")"@),
    );
    assert forall|k: int| 0 <= k < a.len() implies a[k] == b[k] by {
        if k == 0 {
            assert(b[k] =~= entries[k]);
        }
    }
    assert(a =~= b);
}

/// The prompt is, in order: the fixed instructions, the context of every
/// fragment, the question under its heading, and the heading of the answer.
/// Only the context depends on the fragments and only the question on the query.
pub proof fn lemma_prompt_parts(query: Seq<char>, cs: Seq<ChunkView>)
    ensures
        prompt_text(query, cs) == "Eres RepoMind, un asistente experto en ingeniería de software. Basándote ÚNICAMENTE en el siguiente contexto de código fuente, responde de manera clara, estructurada y precisa a la pregunta del usuario.\n\n### CONTEXTO DE CÓDIGO FUENTE:\n"@
            + context_text(cs) + "\n\n### PREGUNTA DEL USUARIO:\n"@ + query
            + "\n\n### RESPUESTA TÉCNICA:"@,
        prompt_text(query, cs).len() == prompt_text(seq![], seq![]).len() + context_text(cs).len()
            + query.len(),
{
    assert(context_text(Seq::<ChunkView>::empty()) == Seq::<char>::empty());
}

/// The demonstration answer quotes the question, lists every fragment and names
/// the model; the rest of its text is fixed.
pub proof fn lemma_demo_parts(query: Seq<char>, cs: Seq<ChunkView>, model: Seq<char>)
    ensures
        demo_text(query, cs, model) == "💡 [Modo Demostración RepoMind]\n\nHe localizado los fragmentos de código más relevantes en tu repositorio para responder a: \""@
            + query + "\"\n\n📌 **Fragmentos clave encontrados:**\n"@ + listing_text(cs)
            + "\n\nℹ️ *Tip: Para respuestas generadas por IA en tiempo real, ejecuta Ollama en segundo plano (`ollama run "@
            + model + "`) o usa Docker Compose (`docker compose up -d`).*"@,
        demo_text(query, cs, model).len() == demo_text(seq![], seq![], seq![]).len() + query.len()
            + listing_text(cs).len() + model.len(),
{
    assert(listing_text(Seq::<ChunkView>::empty()) == Seq::<char>::empty());
}

} // verus!
