//! Vectors that were computed before, kept by the text that they stand for.
use vstd::prelude::*;
use crate::chars::{alphanumeric, is_alphanumeric};
use crate::paths::{join, joined};
use crate::score::{copy_vector, Single, Vector};
use crate::text::{chars_of, join2, same_text, text_of};
use std::mem::swap;
use vstd::hash_map::StringHashMap;

verus! {

/// The SHA-256 digest of a text, in hexadecimal.
pub uninterp spec fn sha256_hex(text: Seq<char>) -> Seq<char>;

/// Calls `sha2::Sha256` on the UTF-8 bytes of a text, and writes the digest
/// down in lower-case hexadecimal. The digest itself is left to the name.
#[verifier::external_body]
fn hash_text(text: &str) -> (r: String)
    ensures
        r@ == sha256_hex(text@),
{
    format!("{:x}", <sha2::Sha256 as sha2::Digest>::digest(text.as_bytes()))
}

/// A model's name as part of a file's name.
pub open spec fn sanitized(model_id: Seq<char>) -> Seq<char> {
    model_id.map_values(
        |c: char|
            if is_alphanumeric(c) || c == '-' || c == '_' {
                c
            } else {
                '_'
            },
    )
}

/// Makes a model's name fit to be part of a file's name: whatever is no letter,
/// digit, hyphen or underscore becomes an underscore.
pub fn sanitize_filename(model_id: &str) -> (r: String)
    ensures
        r@ == sanitized(model_id@),
{
    let chars = chars_of(model_id);
    let mut out: Vec<char> = Vec::new();
    for i in 0..chars.len()
        invariant
            chars@ == model_id@,
            out.len() == i,
            forall|j: int| 0 <= j < i ==> #[trigger] out@[j] == sanitized(model_id@)[j],
    {
        let c = chars[i];
        if alphanumeric(c) || c == '-' || c == '_' {
            out.push(c);
        } else {
            out.push('_');
        }
    }
    assert(out@ =~= sanitized(model_id@));
    text_of(&out)
}

/// One vector of the cache, with the hash of its text.
pub struct CacheEntry {
    pub hash: String,
    pub vector: Vector,
}

/// What a file holds of a cache: the vectors, and the model that they come
/// from. Different models may have the same file.
pub struct StoredVectors {
    pub model_id: String,
    pub entries: Vec<CacheEntry>,
}

/// Vectors, with the place of each by its hash.
struct Kept {
    entries: Vec<CacheEntry>,
    slots: StringHashMap<usize>,
}

impl Kept {
    spec fn inv(self) -> bool {
        &&& forall|h: Seq<char>| #[trigger]
            self.slots@.contains_key(h) ==> self.slots@[h] < self.entries.len()
                && self.entries@[self.slots@[h] as int].hash@ == h
        &&& forall|i: int|
            0 <= i < self.entries.len() ==> self.slots@.contains_key(
                (#[trigger] self.entries@[i]).hash@,
            ) && self.slots@[self.entries@[i].hash@] == i
    }

    spec fn vectors(self) -> Map<Seq<char>, Seq<Single>> {
        Map::new(
            |h: Seq<char>| self.slots@.contains_key(h),
            |h: Seq<char>| self.entries@[self.slots@[h] as int].vector@,
        )
    }

    fn new() -> (r: Self)
        ensures
            r.inv(),
            r.vectors() == Map::<Seq<char>, Seq<Single>>::empty(),
    {
        let r = Kept { entries: Vec::new(), slots: StringHashMap::new() };
        assert(r.vectors() =~= Map::empty());
        r
    }

    fn put(&mut self, hash: &str, vector: &Vector)
        requires
            old(self).inv(),
        ensures
            final(self).inv(),
            final(self).vectors() == old(self).vectors().insert(hash@, vector@),
    {
        let ghost before = self.vectors();
        let found = match self.slots.get(hash) {
            Some(slot) => Some(*slot),
            None => None,
        };
        let entry = CacheEntry { hash: hash.to_string(), vector: copy_vector(vector) };
        match found {
            Some(slot) => {
                self.entries.set(slot, entry);
            },
            None => {
                self.slots.insert(hash.to_string(), self.entries.len());
                self.entries.push(entry);
            },
        }
        assert(self.vectors() =~= before.insert(hash@, vector@));
    }
}

/// The vectors of one model.
pub struct VectorCache {
    dir: String,
    model_id: String,
    kept: Kept,
}

/// What a [`VectorCache`] stands for.
#[verifier::ext_equal]
pub struct CacheView {
    pub dir: Seq<char>,
    pub model_id: Seq<char>,
    pub vectors: Map<Seq<char>, Seq<Single>>,
}

impl View for VectorCache {
    type V = CacheView;

    closed spec fn view(&self) -> CacheView {
        CacheView {
            dir: self.dir@,
            model_id: self.model_id@,
            vectors: self.kept.vectors(),
        }
    }
}

/// The cache with the vectors of a list, of which the last of a hash counts.
pub open spec fn listed(entries: Seq<CacheEntry>) -> Map<Seq<char>, Seq<Single>>
    decreases entries.len(),
{
    if entries.len() == 0 {
        Map::empty()
    } else {
        listed(entries.drop_last()).insert(entries.last().hash@, entries.last().vector@)
    }
}

/// The vectors that were stored for a model: those of another model do not
/// count, and nothing is stored where there is no file that can be read.
pub open spec fn stored_for(stored: Option<StoredVectors>, model_id: Seq<char>) -> Map<
    Seq<char>,
    Seq<Single>,
> {
    match stored {
        Some(s) => if s.model_id@ == model_id {
            listed(s.entries@)
        } else {
            Map::empty()
        },
        None => Map::empty(),
    }
}

/// The cache for a model: that of the same model, or an empty one.
pub open spec fn cache_for(cache: CacheView, model_id: Seq<char>) -> CacheView {
    CacheView {
        model_id,
        vectors: if cache.model_id == model_id {
            cache.vectors
        } else {
            Map::empty()
        },
        ..cache
    }
}

impl VectorCache {
    #[verifier::type_invariant]
    spec fn inv(self) -> bool {
        self.kept.inv()
    }

    /// The cache of a model in a directory, with the vectors that were stored
    /// there for the model.
    pub fn new(dir: String, model_id: &str, stored: Option<StoredVectors>) -> (r: Self)
        ensures
            r@.dir == dir@,
            r@.model_id == model_id@,
            r@.vectors == stored_for(stored, model_id@),
    {
        let mut cache = VectorCache {
            dir,
            model_id: model_id.to_string(),
            kept: Kept::new(),
        };
        if let Some(file) = stored {
            if same_text(file.model_id.as_str(), model_id) {
                cache.put_all(file.entries);
            }
        }
        cache
    }

    fn put_all(&mut self, stored: Vec<CacheEntry>)
        requires
            old(self)@.vectors == Map::<Seq<char>, Seq<Single>>::empty(),
        ensures
            final(self)@.dir == old(self)@.dir,
            final(self)@.model_id == old(self)@.model_id,
            final(self)@.vectors == listed(stored@),
    {
        let ghost first = self@;
        let ghost all = stored@;
        assert(self@.vectors =~= listed(all.take(0)));
        for entry in it: stored.into_iter()
            invariant
                all == it.seq(),
                self@.dir == first.dir,
                self@.model_id == first.model_id,
                self@.vectors == listed(all.take(it.index() as int)),
        {
            let ghost i = it.index() as int;
            proof {
                assert(all.take(i + 1).drop_last() =~= all.take(i));
                assert(all.take(i + 1).last() == entry);
            }
            self.put(entry.hash.as_str(), &entry.vector);
        }
        assert(all.take(all.len() as int) =~= all);
    }

    /// Makes the cache serve a model: the vectors of another model are dropped.
    pub fn serve(&mut self, model_id: &str)
        ensures
            final(self)@ == cache_for(old(self)@, model_id@),
    {
        if !same_text(self.model_id.as_str(), model_id) {
            *self = VectorCache::new(self.dir.clone(), model_id, None);
        }
    }

    /// The model that the vectors come from.
    pub fn model_id(&self) -> (r: &str)
        ensures
            r@ == self@.model_id,
    {
        self.model_id.as_str()
    }

    /// The hash by which the vector of a text is kept.
    pub fn content_hash(&self, text: &str) -> (r: String)
        ensures
            r@ == sha256_hex(text@),
    {
        hash_text(text)
    }

    /// The vector kept under a hash.
    pub fn get(&self, hash: &str) -> (r: Option<&Vector>)
        ensures
            match r {
                Some(v) => self@.vectors.contains_key(hash@) && v@ == self@.vectors[hash@],
                None => !self@.vectors.contains_key(hash@),
            },
    {
        proof {
            use_type_invariant(self);
        }
        match self.kept.slots.get(hash) {
            Some(slot) => Some(&self.kept.entries[*slot].vector),
            None => None,
        }
    }

    /// Keeps a vector under a hash, in place of the one kept there before.
    pub fn put(&mut self, hash: &str, vector: &Vector)
        ensures
            final(self)@.vectors == old(self)@.vectors.insert(hash@, vector@),
            final(self)@.dir == old(self)@.dir,
            final(self)@.model_id == old(self)@.model_id,
    {
        proof {
            use_type_invariant(&*self);
        }
        let mut kept = Kept::new();
        swap(&mut kept, &mut self.kept);
        kept.put(hash, vector);
        self.kept = kept;
    }

    /// Everything that is kept.
    pub fn entries(&self) -> (r: &Vec<CacheEntry>)
        ensures
            listed(r@) == self@.vectors,
    {
        proof {
            use_type_invariant(self);
            let entries = self.kept.entries@;
            lemma_listed(entries, self.kept.slots@, entries.len() as int);
            assert(entries.take(entries.len() as int) =~= entries);
            assert(listed(entries) =~= self@.vectors);
        }
        &self.kept.entries
    }

    /// The file in which the vectors are stored.
    pub fn file_path(&self) -> (r: String)
        ensures
            r@ == joined(self@.dir, sanitized(self@.model_id) + ".json"@),
    {
        let name = join2(sanitize_filename(self.model_id.as_str()).as_str(), ".json");
        join(self.dir.as_str(), name.as_str())
    }

    /// The file in which the vectors are written down before they are stored.
    pub fn temporary_path(&self) -> (r: String)
        ensures
            r@ == joined(self@.dir, sanitized(self@.model_id) + ".json.tmp"@),
    {
        let name = join2(sanitize_filename(self.model_id.as_str()).as_str(), ".json.tmp");
        join(self.dir.as_str(), name.as_str())
    }
}

proof fn lemma_listed(entries: Seq<CacheEntry>, slots: Map<Seq<char>, usize>, n: int)
    requires
        0 <= n <= entries.len(),
        forall|i: int|
            0 <= i < entries.len() ==> slots.contains_key((#[trigger] entries[i]).hash@)
                && slots[entries[i].hash@] == i,
    ensures
        forall|h: Seq<char>| #[trigger]
            listed(entries.take(n)).contains_key(h) <==> exists|i: int|
                0 <= i < n && (#[trigger] entries[i]).hash@ == h,
        forall|i: int|
            0 <= i < n ==> listed(entries.take(n))[(#[trigger] entries[i]).hash@]
                == entries[i].vector@,
    decreases n,
{
    if n > 0 {
        lemma_listed(entries, slots, n - 1);
        assert(entries.take(n).drop_last() =~= entries.take(n - 1));
        assert(entries.take(n).last() == entries[n - 1]);
        let before = listed(entries.take(n - 1));
        let after = listed(entries.take(n));
        assert(after == before.insert(entries[n - 1].hash@, entries[n - 1].vector@));
        assert forall|h: Seq<char>| #[trigger] after.contains_key(h) <==> exists|i: int|
            0 <= i < n && (#[trigger] entries[i]).hash@ == h by {
            if h == entries[n - 1].hash@ {
                assert(after.contains_key(h));
            } else {
                assert(after.contains_key(h) == before.contains_key(h));
                if before.contains_key(h) {
                    let i = choose|i: int| 0 <= i < n - 1 && (#[trigger] entries[i]).hash@ == h;
                    assert(entries[i].hash@ == h);
                }
            }
        }
    }
}

/// What a cache stores is loaded again for the same model, and for no other.
pub proof fn law_caches_are_kept_apart(
    cache: CacheView,
    stored: StoredVectors,
    model_id: Seq<char>,
)
    requires
        stored.model_id@ == cache.model_id,
        listed(stored.entries@) == cache.vectors,
    ensures
        stored_for(Some(stored), model_id) == cache_for(cache, model_id).vectors,
        model_id == cache.model_id ==> stored_for(Some(stored), model_id) == cache.vectors,
        model_id != cache.model_id ==> forall|hash: Seq<char>|
            !#[trigger] stored_for(Some(stored), model_id).contains_key(hash),
{
}

/// Of the vectors in a list that have the same hash, the last one counts, and a
/// hash that no entry has is not known.
pub proof fn law_the_last_vector_of_a_hash_counts(entries: Seq<CacheEntry>, h: Seq<char>)
    ensures
        listed(entries).contains_key(h) <==> exists|i: int|
            0 <= i < entries.len() && (#[trigger] entries[i]).hash@ == h,
        forall|i: int|
            0 <= i < entries.len() && (#[trigger] entries[i]).hash@ == h && (forall|j: int|
                i < j < entries.len() ==> (#[trigger] entries[j]).hash@ != h) ==> listed(entries)[h]
                == entries[i].vector@,
    decreases entries.len(),
{
    if entries.len() > 0 {
        let t = entries.drop_last();
        let n = t.len() as int;
        law_the_last_vector_of_a_hash_counts(t, h);
        if listed(t).contains_key(h) {
            let i = choose|i: int| 0 <= i < t.len() && (#[trigger] t[i]).hash@ == h;
            assert(entries[i].hash@ == h);
        }
        assert forall|i: int|
            0 <= i < entries.len() && (#[trigger] entries[i]).hash@ == h && (forall|j: int|
                i < j < entries.len() ==> (#[trigger] entries[j]).hash@ != h) implies listed(
            entries,
        )[h] == entries[i].vector@ by {
            if i < n {
                assert(entries[n].hash@ != h);
                assert(t[i] == entries[i]);
                assert forall|j: int| i < j < t.len() implies (#[trigger] t[j]).hash@ != h by {
                    assert(entries[j].hash@ != h);
                }
            }
        }
        if exists|i: int| 0 <= i < entries.len() && (#[trigger] entries[i]).hash@ == h {
            let i = choose|i: int| 0 <= i < entries.len() && (#[trigger] entries[i]).hash@ == h;
            if i < n {
                assert(t[i].hash@ == h);
            }
        }
    }
}

/// A model's name keeps its letters, digits, hyphens and underscores where it
/// becomes part of a file's name, and has an underscore for all else.
pub proof fn law_file_names_keep_letters_and_digits(model_id: Seq<char>, i: int)
    requires
        0 <= i < model_id.len(),
    ensures
        sanitized(model_id).len() == model_id.len(),
        is_alphanumeric(model_id[i]) ==> sanitized(model_id)[i] == model_id[i],
        model_id[i] == '-' || model_id[i] == '_' ==> sanitized(model_id)[i] == model_id[i],
        !is_alphanumeric(model_id[i]) && model_id[i] != '-' ==> sanitized(model_id)[i] == '_',
{
}

/// A cache that serves another model than before starts without vectors, and in
/// the same directory.
pub proof fn law_serving_another_model_drops_the_vectors(cache: CacheView, model_id: Seq<char>)
    ensures
        cache_for(cache, model_id).dir == cache.dir,
        cache_for(cache, model_id).model_id == model_id,
        model_id == cache.model_id ==> cache_for(cache, model_id).vectors == cache.vectors,
        model_id != cache.model_id ==> forall|h: Seq<char>|
            !#[trigger] cache_for(cache, model_id).vectors.contains_key(h),
{
}

} // verus!
