//! The embedding client: requests to the model server, and the integer part of
//! the deterministic embedding used when the server cannot be reached.
use vstd::prelude::*;

use crate::text::{chars_of, push_str, split_words, string_from_chars, views, words_of};

verus! {

/// The length of a fallback embedding.
pub const EMBEDDING_DIM: usize = 128;

/// The sum of the bytes, wrapping around at 2^32, as `bytes().fold(0u32, wrapping_add)`.
pub open spec fn byte_hash(bytes: Seq<u8>) -> u32
    decreases bytes.len(),
{
    if bytes.len() == 0 {
        0
    } else {
        vstd::wrapping::u32_specs::wrapping_add(byte_hash(bytes.drop_last()), bytes.last() as u32)
    }
}

/// The plain sum of the bytes.
pub open spec fn byte_sum(bytes: Seq<u8>) -> nat
    decreases bytes.len(),
{
    if bytes.len() == 0 {
        0
    } else {
        byte_sum(bytes.drop_last()) + bytes.last() as nat
    }
}

/// The wrapping sum is the plain sum of the bytes modulo 2^32.
pub proof fn lemma_byte_hash_is_sum(bytes: Seq<u8>)
    ensures
        byte_hash(bytes) as nat == byte_sum(bytes) % 0x1_0000_0000,
    decreases bytes.len(),
{
    if bytes.len() > 0 {
        lemma_byte_hash_is_sum(bytes.drop_last());
        let a = byte_sum(bytes.drop_last());
        let b = bytes.last() as nat;
        let m: nat = 0x1_0000_0000;
        vstd::arithmetic::div_mod::lemma_small_mod(b, m);
        vstd::arithmetic::div_mod::lemma_add_mod_noop(a as int, b as int, m as int);
        let h = a % m;
        if h + b >= m {
            let x = (h + b - m) as nat;
            vstd::arithmetic::div_mod::lemma_mod_add_multiples_vanish(x as int, m as int);
            vstd::arithmetic::div_mod::lemma_small_mod(x, m);
        } else {
            vstd::arithmetic::div_mod::lemma_small_mod((h + b) as nat, m);
        }
    }
}

/// The hash of a word: the wrapping sum of the bytes of its UTF-8 encoding.
pub open spec fn word_hash(word: Seq<char>) -> u32 {
    byte_hash(vstd::utf8::encode_utf8(word))
}

/// The coordinate of the fallback embedding that a word adds to.
pub open spec fn word_bucket(word: Seq<char>) -> nat {
    (word_hash(word) as nat) % (EMBEDDING_DIM as nat)
}

/// The body of an embedding request to the model server.
pub struct EmbeddingRequest {
    pub model: String,
    pub prompt: String,
}

/// Turns text into embedding vectors with the model `model` served at `base_url`.
pub struct EmbeddingProvider {
    base_url: String,
    model: String,
}

/// The hash of one word.
fn hash_word(word: &Vec<char>) -> (h: u32)
    ensures
        h == word_hash(word@),
{
    let s = string_from_chars(word);
    let bytes = s.as_str().as_bytes();
    let mut h: u32 = 0;
    let n = bytes.len();
    for i in 0..n
        invariant
            n == bytes@.len(),
            bytes@ == vstd::utf8::encode_utf8(word@),
            h == byte_hash(bytes@.take(i as int)),
    {
        assert(bytes@.take(i + 1).drop_last() =~= bytes@.take(i as int));
        h = h.wrapping_add(bytes[i] as u32);
    }
    assert(bytes@.take(n as int) =~= bytes@);
    h
}

impl EmbeddingProvider {
    /// The server address this provider talks to.
    pub closed spec fn base_url(self) -> Seq<char> {
        self.base_url@
    }

    /// The embedding model this provider asks.
    pub closed spec fn model(self) -> Seq<char> {
        self.model@
    }

    /// A provider for `model` on the server at `base_url`.
    pub fn new(base_url: String, model: String) -> (res: Self)
        ensures
            res.base_url() == base_url@,
            res.model() == model@,
    {
        EmbeddingProvider { base_url, model }
    }

    /// The address of the server's embedding endpoint.
    pub fn embeddings_url(&self) -> (res: String)
        ensures
            res@ == self.base_url() + "/api/embeddings"@,
    {
        let mut out: Vec<char> = Vec::new();
        push_str(&mut out, self.base_url.as_str());
        push_str(&mut out, "/api/embeddings");
        string_from_chars(&out)
    }

    /// The request that asks this provider's model to embed `text`.
    pub fn embedding_request(&self, text: &str) -> (res: EmbeddingRequest)
        ensures
            res.model@ == self.model(),
            res.prompt@ == text@,
    {
        EmbeddingRequest { model: self.model.clone(), prompt: text.to_owned() }
    }

    /// For each word of `text`, in order, the coordinate of the fallback embedding
    /// that it adds to: its hash modulo `EMBEDDING_DIM`. The `i`-th word (from 0)
    /// adds `1 / sqrt(i + 1)` there before the vector is normalised.
    pub fn fallback_buckets(&self, text: &str) -> (res: Vec<usize>)
        ensures
            res@.len() == words_of(text@).len(),
            forall|i: int|
                0 <= i < res@.len() ==> #[trigger] res@[i] as nat == word_bucket(words_of(text@)[i]),
            forall|i: int| 0 <= i < res@.len() ==> #[trigger] res@[i] < EMBEDDING_DIM,
    {
        let chars = chars_of(text);
        let words = split_words(&chars);
        let ghost ws = views(words@);
        let mut res: Vec<usize> = Vec::new();
        let n = words.len();
        for i in 0..n
            invariant
                n == words@.len(),
                ws == views(words@),
                ws == words_of(text@),
                res@.len() == i,
                forall|j: int| 0 <= j < i ==> #[trigger] res@[j] as nat == word_bucket(ws[j]),
                forall|j: int| 0 <= j < i ==> #[trigger] res@[j] < EMBEDDING_DIM,
        {
            let h = hash_word(&words[i]);
            assert(ws[i as int] == words@[i as int]@);
            res.push((h as usize) % EMBEDDING_DIM);
        }
        res
    }
}

/// The sum of the bytes, as `fold_left` adds them.
proof fn lemma_byte_sum_is_fold(bytes: Seq<u8>)
    ensures
        byte_sum(bytes) as int == bytes.fold_left(0int, |acc: int, b: u8| acc + b),
    decreases bytes.len(),
{
    if bytes.len() > 0 {
        lemma_byte_sum_is_fold(bytes.drop_last());
    }
}

/// The coordinate a word adds to is the sum of all the bytes of its UTF-8
/// encoding, whatever its length, modulo 128.
pub proof fn lemma_word_bucket_is_byte_sum(word: Seq<char>)
    ensures
        word_bucket(word) as int == vstd::utf8::encode_utf8(word).fold_left(
            0int,
            |acc: int, b: u8| acc + b,
        ) % 128,
{
    let bytes = vstd::utf8::encode_utf8(word);
    lemma_byte_hash_is_sum(bytes);
    lemma_byte_sum_is_fold(bytes);
    let x = byte_sum(bytes) as int;
    vstd::arithmetic::div_mod::lemma_mod_mod(x, 128, 0x200_0000);
    assert(128 * 0x200_0000 == 0x1_0000_0000);
}

} // verus!
