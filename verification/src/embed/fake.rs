//! Embedders that need no model.
use vstd::prelude::*;
use crate::chars::{words, words_of};
use crate::embed::{EmbedError, Embedder};
use crate::score::{copy_vector, Vector};
use crate::text::views;
use std::collections::hash_map::DefaultHasher;
use std::hash::Hasher;
use vstd::hash_map::StringHashMap;
use vstd::std_specs::hash::DefaultHasherAdditionalSpecFns;

verus! {

/// What hashing a word writes into a hasher of the standard library.
pub uninterp spec fn word_writes(word: Seq<char>) -> Seq<Seq<u8>>;

/// Calls `std::hash::Hash::hash` for `str` on a
/// `std::collections::hash_map::DefaultHasher`: behind what was written before,
/// the hasher gets what the word alone determines. What that is, is left to the
/// name.
#[verifier::external_body]
fn write_word(word: &str, hasher: &mut DefaultHasher)
    ensures
        final(hasher)@ == old(hasher)@ + word_writes(word@),
{
    std::hash::Hash::hash(word, hasher)
}

/// What the standard library's default hasher makes of a word.
pub open spec fn word_hash(word: Seq<char>) -> u64 {
    DefaultHasher::spec_finish(word_writes(word))
}

fn hash_word(word: &str) -> (r: u64)
    ensures
        r == word_hash(word@),
{
    let mut hasher = DefaultHasher::new();
    write_word(word, &mut hasher);
    assert(hasher@ =~= word_writes(word@));
    hasher.finish()
}

/// The hashes of words.
pub open spec fn word_hashes(ws: Seq<Seq<char>>) -> Seq<u64> {
    ws.map_values(|w: Seq<char>| word_hash(w))
}

/// How many of the hashes fall into a bucket.
pub open spec fn bucket_count(hashes: Seq<u64>, bucket: int) -> nat
    decreases hashes.len(),
{
    if hashes.len() == 0 {
        0
    } else {
        bucket_count(hashes.drop_last(), bucket) + (if hashes.last() % 256 == bucket {
            1nat
        } else {
            0nat
        })
    }
}

proof fn lemma_bucket_count(hashes: Seq<u64>, bucket: int)
    ensures
        bucket_count(hashes, bucket) <= hashes.len(),
    decreases hashes.len(),
{
    if hashes.len() > 0 {
        lemma_bucket_count(hashes.drop_last(), bucket);
    }
}

/// Counts hashes in 256 buckets, by their remainders.
pub fn fill_buckets(hashes: &Vec<u64>) -> (r: Vec<u64>)
    ensures
        r.len() == 256,
        forall|b: int| 0 <= b < 256 ==> #[trigger] r@[b] == bucket_count(hashes@, b),
{
    let mut r: Vec<u64> = Vec::new();
    for i in 0..256usize
        invariant
            r.len() == i,
            forall|b: int| 0 <= b < i ==> r@[b] == 0,
    {
        r.push(0);
    }
    assert(hashes@.take(0) =~= Seq::empty());
    for i in 0..hashes.len()
        invariant
            r.len() == 256,
            forall|b: int|
                0 <= b < 256 ==> #[trigger] r@[b] == bucket_count(hashes@.take(i as int), b),
    {
        let at: usize = (hashes[i] % 256) as usize;
        proof {
            assert(hashes@.take(i + 1).drop_last() =~= hashes@.take(i as int));
            lemma_bucket_count(hashes@.take(i as int), at as int);
        }
        let count: u64 = r[at];
        r.set(at, count + 1);
    }
    assert(hashes@.take(hashes.len() as int) =~= hashes@);
    r
}

/// An embedder that counts the words of a text in buckets.
pub struct BucketEmbedder {
    model_id: String,
}

impl View for BucketEmbedder {
    type V = Seq<char>;

    /// The name of the model.
    closed spec fn view(&self) -> Seq<char> {
        self.model_id@
    }
}

impl BucketEmbedder {
    /// The embedder.
    pub fn new() -> (r: Self)
        ensures
            r@ == "fake-bucket"@,
    {
        BucketEmbedder { model_id: "fake-bucket".to_string() }
    }

    /// The name of the model.
    pub fn model_id(&self) -> (r: &str)
        ensures
            r@ == self@,
    {
        self.model_id.as_str()
    }

    /// How many words of a text fall into each bucket. Divided by its length,
    /// this is the text's vector.
    pub fn embed_text(&self, text: &str) -> (r: Vec<u64>)
        ensures
            r.len() == 256,
            forall|b: int|
                0 <= b < 256 ==> #[trigger] r@[b] == bucket_count(word_hashes(words(text@)), b),
    {
        let ws = words_of(text);
        let ghost all = views(ws@);
        let mut hashes: Vec<u64> = Vec::new();
        for i in 0..ws.len()
            invariant
                all == views(ws@),
                hashes.len() == i,
                forall|j: int| 0 <= j < i ==> #[trigger] hashes@[j] == word_hash(all[j]),
        {
            assert(all[i as int] == ws@[i as int]@);
            hashes.push(hash_word(ws[i].as_str()));
        }
        assert(hashes@ =~= word_hashes(all));
        fill_buckets(&hashes)
    }
}

impl Default for BucketEmbedder {
    fn default() -> (r: Self)
        ensures
            r@ == "fake-bucket"@,
    {
        Self::new()
    }
}

/// An embedder with given vectors for given texts, and another embedder for
/// all other texts.
pub struct PinnedEmbedder<B: Embedder> {
    model_id: String,
    map: StringHashMap<Vector>,
    fallback: B,
}

impl<B: Embedder> PinnedEmbedder<B> {
    /// The vectors that are given.
    pub closed spec fn pinned(self) -> Map<Seq<char>, Vector> {
        self.map@
    }

    /// The embedder for all other texts.
    pub closed spec fn other(self) -> B {
        self.fallback
    }

    /// The name of the model.
    pub closed spec fn model(self) -> Seq<char> {
        self.model_id@
    }

    /// An embedder with no given vectors.
    pub fn new(fallback: B) -> (r: Self)
        ensures
            r.pinned() == Map::<Seq<char>, Vector>::empty(),
            r.other() == fallback,
            r.model() == "fake-pinned"@,
    {
        PinnedEmbedder { model_id: "fake-pinned".to_string(), map: StringHashMap::new(), fallback }
    }

    /// Gives a text its vector.
    pub fn pin(&mut self, text: &str, vector: Vector)
        ensures
            final(self).pinned() == old(self).pinned().insert(text@, vector),
            final(self).other() == old(self).other(),
            final(self).model() == old(self).model(),
    {
        self.map.insert(text.to_string(), vector);
    }

    /// Whether `r` is what the embedder may make of a text: the given vector
    /// where there is one, and otherwise whatever the other embedder makes of it.
    pub open spec fn gives(self, text: Seq<char>, r: Result<Vector, EmbedError>) -> bool {
        if self.pinned().contains_key(text) {
            r is Ok && r->Ok_0@ == self.pinned()[text]@
        } else {
            exists|t: &str|
                t@ == text && #[trigger] call_ensures(B::embed_query, (&self.other(), t), r)
        }
    }
}

impl<B: Embedder> Embedder for PinnedEmbedder<B> {
    fn model_id(&self) -> (r: String)
        ensures
            r@ == self.model(),
    {
        self.model_id.clone()
    }

    fn embed_passages(&self, texts: &Vec<String>) -> (r: Result<Vec<Vector>, EmbedError>)
        ensures
            match r {
                Ok(vs) => vs.len() == texts.len() && forall|i: int|
                    0 <= i < texts.len() ==> self.gives((#[trigger] texts@[i])@, Ok(vs@[i])),
                Err(e) => exists|i: int|
                    0 <= i < texts.len() && self.gives((#[trigger] texts@[i])@, Err(e)),
            },
    {
        let mut out: Vec<Vector> = Vec::new();
        for i in 0..texts.len()
            invariant
                out.len() == i,
                forall|j: int| 0 <= j < i ==> self.gives((#[trigger] texts@[j])@, Ok(out@[j])),
        {
            match self.embed_query(texts[i].as_str()) {
                Ok(v) => {
                    out.push(v);
                },
                Err(e) => {
                    assert(self.gives(texts@[i as int]@, Err(e)));
                    return Err(e);
                },
            }
        }
        Ok(out)
    }

    fn embed_query(&self, text: &str) -> (r: Result<Vector, EmbedError>)
        ensures
            self.gives(text@, r),
    {
        match self.map.get(text) {
            Some(v) => Ok(copy_vector(v)),
            None => {
                let r = self.fallback.embed_query(text);
                assert(call_ensures(B::embed_query, (&self.other(), text), r));
                r
            },
        }
    }
}

/// What the first `n` buckets hold in all.
pub open spec fn in_all(hashes: Seq<u64>, n: int) -> nat
    decreases n,
{
    if n <= 0 {
        0
    } else {
        in_all(hashes, n - 1) + bucket_count(hashes, n - 1)
    }
}

/// Every hash is counted once, in the bucket of its remainder: the buckets hold
/// as many as there are hashes, and one more hash raises that bucket alone.
pub proof fn law_every_hash_is_counted_once(hashes: Seq<u64>, h: u64, bucket: int)
    ensures
        in_all(hashes, 256) == hashes.len(),
        bucket_count(hashes.push(h), bucket) == bucket_count(hashes, bucket) + (if h as int % 256
            == bucket {
            1nat
        } else {
            0nat
        }),
{
    assert(hashes.push(h).drop_last() =~= hashes);
    lemma_in_all(hashes);
}

proof fn lemma_in_all(hashes: Seq<u64>)
    ensures
        in_all(hashes, 256) == hashes.len(),
    decreases hashes.len(),
{
    if hashes.len() > 0 {
        lemma_in_all(hashes.drop_last());
        lemma_one_more(hashes, 256);
    } else {
        lemma_none(hashes, 256);
    }
}

proof fn lemma_none(hashes: Seq<u64>, n: int)
    requires
        hashes.len() == 0,
    ensures
        in_all(hashes, n) == 0,
    decreases n,
{
    if n > 0 {
        lemma_none(hashes, n - 1);
    }
}

proof fn lemma_one_more(hashes: Seq<u64>, n: int)
    requires
        hashes.len() > 0,
        0 <= n,
    ensures
        in_all(hashes, n) == in_all(hashes.drop_last(), n) + (if hashes.last() as int % 256 < n {
            1nat
        } else {
            0nat
        }),
    decreases n,
{
    if n > 0 {
        lemma_one_more(hashes, n - 1);
    }
}

/// Every word has one hash, and the same word has the same.
pub proof fn law_every_word_is_hashed(ws: Seq<Seq<char>>, i: int, j: int)
    requires
        0 <= i < ws.len(),
        0 <= j < ws.len(),
    ensures
        word_hashes(ws).len() == ws.len(),
        word_hashes(ws)[i] == DefaultHasher::spec_finish(word_writes(ws[i])),
        ws[i] == ws[j] ==> word_hashes(ws)[i] == word_hashes(ws)[j],
{
}

/// A text with a given vector gets that vector, and any other what the other
/// embedder makes of it.
pub proof fn law_given_vectors_come_first<B: Embedder>(
    p: PinnedEmbedder<B>,
    text: Seq<char>,
    r: Result<Vector, EmbedError>,
)
    requires
        p.gives(text, r),
    ensures
        p.pinned().contains_key(text) ==> r is Ok && r->Ok_0@ == p.pinned()[text]@,
        !p.pinned().contains_key(text) ==> exists|t: &str|
            t@ == text && #[trigger] call_ensures(B::embed_query, (&p.other(), t), r),
{
}

} // verus!
