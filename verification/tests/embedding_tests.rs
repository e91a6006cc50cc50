use repomind::embeddings::{EmbeddingProvider, EMBEDDING_DIM};

fn reference_buckets(text: &str) -> Vec<usize> {
    text.split_whitespace()
        .map(|word| {
            let hash = word.bytes().fold(0u32, |acc, b| acc.wrapping_add(b as u32));
            (hash as usize) % 128
        })
        .collect()
}

fn provider() -> EmbeddingProvider {
    EmbeddingProvider::new("http://localhost:11434".to_string(), "nomic-embed-text".to_string())
}

#[test]
fn embeddings_url_appends_endpoint() {
    assert_eq!(provider().embeddings_url(), "http://localhost:11434/api/embeddings");
}

#[test]
fn embedding_request_carries_model_and_text() {
    let r = provider().embedding_request("fn main");
    assert_eq!(r.model, "nomic-embed-text");
    assert_eq!(r.prompt, "fn main");
}

#[test]
fn buckets_of_simple_words() {
    assert_eq!(EMBEDDING_DIM, 128);
    // "hello" sums to 532, "world" to 552.
    assert_eq!(provider().fallback_buckets("hello world"), vec![532 % 128, 552 % 128]);
    assert_eq!(provider().fallback_buckets("  \t\n "), Vec::<usize>::new());
    assert_eq!(provider().fallback_buckets(""), Vec::<usize>::new());
}

#[test]
fn buckets_match_reference() {
    for text in ["fn main() { println!(\"hi\"); }", "  a  b\tc\nd  ", "código ñandú 日本 🦀", "x\u{3000}y\u{a0}z"] {
        assert_eq!(provider().fallback_buckets(text), reference_buckets(text), "{}", text);
    }
}

#[test]
fn bucket_is_byte_sum_modulo() {
    // "ñ" is encoded as 0xC3 0xB1: 195 + 177 = 372.
    assert_eq!(provider().fallback_buckets("ñ"), vec![372 % 128]);
    assert_eq!(provider().fallback_buckets("hello ñ hello"), vec![532 % 128, 372 % 128, 532 % 128]);
}
