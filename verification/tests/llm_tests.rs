use repomind::llm::LlmClient;
use repomind::scanner::CodeChunk;

fn chunk(path: &str, start: usize, end: usize, content: &str) -> CodeChunk {
    CodeChunk {
        id: format!("{}:0", path),
        file_path: path.to_string(),
        start_line: start,
        end_line: end,
        content: content.to_string(),
    }
}

fn sample() -> Vec<CodeChunk> {
    vec![chunk("src/main.rs", 1, 40, "fn main() {}"), chunk("src/lib.rs", 31, 70, "pub mod a;\npub mod b;")]
}

fn reference_context(chunks: &[CodeChunk]) -> String {
    let mut context_text = String::new();
    for (idx, chunk) in chunks.iter().enumerate() {
        context_text.push_str(&format!(
            "--- Fragmento #{} [Archivo: {} | Líneas {}-{}] ---\n{}\n\n",
            idx + 1,
            chunk.file_path,
            chunk.start_line,
            chunk.end_line,
            chunk.content
        ));
    }
    context_text
}

fn reference_prompt(query: &str, chunks: &[CodeChunk]) -> String {
    format!(
        "Eres RepoMind, un asistente experto en ingeniería de software. \
        Basándote ÚNICAMENTE en el siguiente contexto de código fuente, responde de manera clara, estructurada y precisa a la pregunta del usuario.\n\n\
        ### CONTEXTO DE CÓDIGO FUENTE:\n{}\n\n\
        ### PREGUNTA DEL USUARIO:\n{}\n\n\
        ### RESPUESTA TÉCNICA:",
        reference_context(chunks),
        query
    )
}

fn reference_demo(query: &str, chunks: &[CodeChunk], model: &str) -> String {
    format!(
        "💡 [Modo Demostración RepoMind]\n\n\
        He localizado los fragmentos de código más relevantes en tu repositorio para responder a: \"{}\"\n\n\
        📌 **Fragmentos clave encontrados:**\n{}\n\n\
        ℹ️ *Tip: Para respuestas generadas por IA en tiempo real, ejecuta Ollama en segundo plano (`ollama run {}`) o usa Docker Compose (`docker compose up -d`).*",
        query,
        chunks
            .iter()
            .map(|c| format!("- `{}` (Líneas {}-{})", c.file_path, c.start_line, c.end_line))
            .collect::<Vec<_>>()
            .join("\n"),
        model
    )
}

#[test]
fn generate_url_appends_endpoint() {
    let c = LlmClient::new("http://localhost:11434".to_string(), "llama3.2".to_string());
    assert_eq!(c.generate_url(), "http://localhost:11434/api/generate");
}

#[test]
fn context_numbers_fragments_from_one() {
    let chunks = sample();
    let ctx = LlmClient::build_context(&chunks);
    assert_eq!(ctx, reference_context(&chunks));
    assert!(ctx.starts_with("--- Fragmento #1 [Archivo: src/main.rs | Líneas 1-40] ---\nfn main() {}\n\n"));
    assert!(ctx.contains("--- Fragmento #2 [Archivo: src/lib.rs | Líneas 31-70] ---\n"));
    assert_eq!(LlmClient::build_context(&[]), "");
}

#[test]
fn prompt_matches_template() {
    let chunks = sample();
    let p = LlmClient::build_prompt("¿Qué hace main?", &chunks);
    assert_eq!(p, reference_prompt("¿Qué hace main?", &chunks));
    assert!(p.ends_with("### PREGUNTA DEL USUARIO:\n¿Qué hace main?\n\n### RESPUESTA TÉCNICA:"));
    assert_eq!(LlmClient::build_prompt("q", &[]), reference_prompt("q", &[]));
}

#[test]
fn generate_request_carries_model_and_prompt() {
    let c = LlmClient::new("http://h".to_string(), "llama3.2".to_string());
    let chunks = sample();
    let r = c.generate_request("why", &chunks);
    assert_eq!(r.model, "llama3.2");
    assert_eq!(r.prompt, reference_prompt("why", &chunks));
    assert!(!r.stream);
}

#[test]
fn demo_answer_lists_fragments() {
    let c = LlmClient::new("http://h".to_string(), "llama3.2".to_string());
    let chunks = sample();
    let a = c.demo_answer("Explica", &chunks);
    assert_eq!(a, reference_demo("Explica", &chunks, "llama3.2"));
    assert!(a.contains("- `src/main.rs` (Líneas 1-40)\n- `src/lib.rs` (Líneas 31-70)"));
    assert_eq!(c.demo_answer("x", &[]), reference_demo("x", &[], "llama3.2"));
}

#[test]
fn answer_prefers_model_reply() {
    let c = LlmClient::new("http://h".to_string(), "m".to_string());
    let chunks = sample();
    assert_eq!(c.answer_from_reply(Some("La respuesta".to_string()), "q", &chunks), "La respuesta");
    assert_eq!(c.answer_from_reply(None, "q", &chunks), reference_demo("q", &chunks, "m"));
}
