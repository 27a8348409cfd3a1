//! The snapshot: everything that is derived from the files of a corpus.
use vstd::prelude::*;
use crate::cycles::force_ids;
use crate::embed::cache::{cache_for, sha256_hex, CacheView, VectorCache};
use crate::embed::{EmbedError, Embedder};
use crate::graph::{distinct_ids, Graph, GraphView, RecordView};
use crate::judge::{judge, judged, Verdicts, VerdictsView};
use crate::linker::{
    decision_ids, law_kept_are_no_more, law_kept_forces_have_history, law_linked_ids, link, links,
    Diagnostic, DiagnosticView, Linked, LinkedView,
};
use crate::record::{
    law_read_is_well_read, parse, reads, well_read, DecisionView, ForceView, Parsed, ParsedView,
    RawRecord,
};
use crate::score::{copy_vector, Single, Vector};
use crate::text::{join2, join3, join_texts, joined_texts, lemma_push_contains, views};
use vstd::hash_map::StringHashMap;
pub use crate::report::{StaleEntry, WhyEntry};

verus! {

/// A snapshot of a corpus.
pub struct Snapshot {
    pub graph: Graph,
    pub verdicts: Verdicts,
    pub diagnostics: Vec<Diagnostic>,
    /// The vector of each record, by its id.
    pub vectors: StringHashMap<Vector>,
    /// The model that the vectors come from.
    pub model_id: String,
    /// When the snapshot was built, in milliseconds since 1970.
    pub built_at: i64,
}

/// What a [`Snapshot`] stands for.
#[verifier::ext_equal]
pub struct SnapshotView {
    pub graph: GraphView,
    pub verdicts: VerdictsView,
    pub diagnostics: Seq<DiagnosticView>,
    pub vectors: Map<Seq<char>, Seq<Single>>,
    pub model_id: Seq<char>,
    pub built_at: int,
}

impl View for Snapshot {
    type V = SnapshotView;

    open spec fn view(&self) -> SnapshotView {
        SnapshotView {
            graph: self.graph@,
            verdicts: self.verdicts@,
            diagnostics: views(self.diagnostics@),
            vectors: self.vectors@.map_values(|v: Vector| v@),
            model_id: self.model_id@,
            built_at: self.built_at as int,
        }
    }
}

impl SnapshotView {
    /// Whether the verdicts are those on the graph, the records have different
    /// ids, every force has a status, and distances can count the records.
    pub open spec fn sound(self) -> bool {
        &&& distinct_ids(self.graph)
        &&& self.verdicts == judged(self.graph)
        &&& self.graph.forces.len() + self.graph.decisions.len() <= u32::MAX
        &&& forall|i: int|
            0 <= i < self.graph.forces.len() ==> (#[trigger] self.graph.forces[i]).status_log.len()
                > 0
    }
}

/// Why a snapshot was not built.
#[derive(Debug)]
pub struct BuildError(pub String);

impl View for BuildError {
    type V = Seq<char>;

    open spec fn view(&self) -> Seq<char> {
        self.0@
    }
}

/// A file and its text. A file that cannot be read has the empty text.
pub struct SourceFile {
    pub path: String,
    pub text: String,
}

/// What a [`SourceFile`] stands for.
#[verifier::ext_equal]
pub struct SourceFileView {
    pub path: Seq<char>,
    pub text: Seq<char>,
}

impl View for SourceFile {
    type V = SourceFileView;

    open spec fn view(&self) -> SourceFileView {
        SourceFileView { path: self.path@, text: self.text@ }
    }
}

/// The text that stands for a record in searches: its title, its body, and its
/// tags, where it has any.
pub open spec fn text_to_embed(title: Seq<char>, body: Seq<char>, tags: Seq<Seq<char>>) -> Seq<
    char,
> {
    if tags.len() == 0 {
        title + "\n\n"@ + body
    } else {
        title + "\n\n"@ + body + ("\n\nTags: "@ + joined_texts(tags, ", "@))
    }
}

/// The text that stands for a record in searches.
pub fn embed_text(title: &str, body: &str, tags: &Vec<String>) -> (r: String)
    ensures
        r@ == text_to_embed(title@, body@, views(tags@)),
{
    let text = join3(title, "\n\n", body);
    assert(views(tags@).len() == tags@.len());
    if tags.len() == 0 {
        text
    } else {
        let tail = join2("\n\nTags: ", join_texts(tags, ", ").as_str());
        join2(text.as_str(), tail.as_str())
    }
}

/// A record's id, with the text that stands for it.
pub struct Item {
    pub id: String,
    pub text: String,
}

/// What an [`Item`] stands for.
#[verifier::ext_equal]
pub struct ItemView {
    pub id: Seq<char>,
    pub text: Seq<char>,
}

impl View for Item {
    type V = ItemView;

    open spec fn view(&self) -> ItemView {
        ItemView { id: self.id@, text: self.text@ }
    }
}

/// The texts of all records, decisions first.
pub open spec fn items_of(linked: LinkedView) -> Seq<ItemView> {
    linked.decisions.map_values(
        |d: DecisionView| ItemView { id: d.id, text: text_to_embed(d.title, d.body, d.tags) },
    ) + linked.forces.map_values(
        |f: ForceView| ItemView { id: f.id, text: text_to_embed(f.title, f.body, f.tags) },
    )
}

/// The vectors of the records whose text the cache knows.
pub open spec fn hits(items: Seq<ItemView>, cache: Map<Seq<char>, Seq<Single>>) -> Map<
    Seq<char>,
    Seq<Single>,
>
    decreases items.len(),
{
    if items.len() == 0 {
        Map::empty()
    } else {
        let before = hits(items.drop_last(), cache);
        let item = items.last();
        if cache.contains_key(sha256_hex(item.text)) {
            before.insert(item.id, cache[sha256_hex(item.text)])
        } else {
            before
        }
    }
}

/// The records whose text the cache does not know.
pub open spec fn misses(items: Seq<ItemView>, cache: Map<Seq<char>, Seq<Single>>) -> Seq<ItemView>
    decreases items.len(),
{
    if items.len() == 0 {
        Seq::empty()
    } else {
        let before = misses(items.drop_last(), cache);
        if cache.contains_key(sha256_hex(items.last().text)) {
            before
        } else {
            before.push(items.last())
        }
    }
}

/// The texts of a list of items.
pub open spec fn texts_of(items: Seq<ItemView>) -> Seq<Seq<char>> {
    items.map_values(|i: ItemView| i.text)
}

/// The vectors with those of the first `n` items put in.
pub open spec fn with_vectors(
    vectors: Map<Seq<char>, Seq<Single>>,
    items: Seq<ItemView>,
    fresh: Seq<Seq<Single>>,
    n: int,
) -> Map<Seq<char>, Seq<Single>>
    decreases n,
{
    if n <= 0 {
        vectors
    } else {
        with_vectors(vectors, items, fresh, n - 1).insert(items[n - 1].id, fresh[n - 1])
    }
}

/// The cache with the vectors of the first `n` items put in.
pub open spec fn with_cached(
    cache: Map<Seq<char>, Seq<Single>>,
    items: Seq<ItemView>,
    fresh: Seq<Seq<Single>>,
    n: int,
) -> Map<Seq<char>, Seq<Single>>
    decreases n,
{
    if n <= 0 {
        cache
    } else {
        with_cached(cache, items, fresh, n - 1).insert(sha256_hex(items[n - 1].text), fresh[n - 1])
    }
}

/// How many items get a vector: no more than there are of either.
pub open spec fn paired(items: Seq<ItemView>, fresh: Seq<Seq<Single>>) -> int {
    if items.len() <= fresh.len() {
        items.len() as int
    } else {
        fresh.len() as int
    }
}

/// The number of milliseconds that `chrono::Utc::now` gives since 1970.
#[verifier::external_body]
fn now_millis() -> i64 {
    chrono::Utc::now().timestamp_millis()
}

/// Reads all files.
fn read_all<F: Fn(&str) -> Result<RawRecord, String>>(files: &Vec<SourceFile>, decode: &F) -> (r:
    Vec<Parsed>)
    requires
        forall|yaml: &str| call_requires(*decode, (yaml,)),
    ensures
        r.len() == files.len(),
        forall|i: int|
            0 <= i < files.len() ==> reads(
                *decode,
                files@[i].path@,
                files@[i].text@,
                (#[trigger] views(r@)[i]),
            ),
{
    let mut r: Vec<Parsed> = Vec::new();
    for i in 0..files.len()
        invariant
            forall|yaml: &str| call_requires(*decode, (yaml,)),
            r.len() == i,
            forall|j: int|
                0 <= j < i ==> reads(
                    *decode,
                    files@[j].path@,
                    files@[j].text@,
                    (#[trigger] r@[j])@,
                ),
    {
        r.push(parse(files[i].path.as_str(), files[i].text.as_str(), decode));
    }
    assert forall|i: int| 0 <= i < files.len() implies reads(
        *decode,
        files@[i].path@,
        files@[i].text@,
        (#[trigger] views(r@)[i]),
    ) by {
        assert(views(r@)[i] == r@[i]@);
    }
    r
}

/// Collects the texts of the records.
fn collect_items(linked: &Linked) -> (r: Vec<Item>)
    ensures
        views(r@) == items_of(linked@),
{
    let ghost all = items_of(linked@);
    let mut r: Vec<Item> = Vec::new();
    for i in 0..linked.decisions.len()
        invariant
            all == items_of(linked@),
            r.len() == i,
            forall|j: int| 0 <= j < i ==> (#[trigger] r@[j])@ == all[j],
    {
        let d = &linked.decisions[i];
        assert(linked@.decisions[i as int] == d@);
        let text = embed_text(d.title.as_str(), d.body.as_str(), &d.tags);
        r.push(Item { id: d.id.clone(), text });
    }
    for i in 0..linked.forces.len()
        invariant
            all == items_of(linked@),
            r.len() == linked.decisions.len() + i,
            forall|j: int| 0 <= j < linked.decisions.len() + i ==> (#[trigger] r@[j])@ == all[j],
    {
        let f = &linked.forces[i];
        assert(linked@.forces[i as int] == f@);
        let text = embed_text(f.title.as_str(), f.body.as_str(), &f.tags);
        r.push(Item { id: f.id.clone(), text });
    }
    assert(views(r@) =~= all);
    r
}

/// The view of a map of vectors.
pub open spec fn vectors_view(m: Map<Seq<char>, Vector>) -> Map<Seq<char>, Seq<Single>> {
    m.map_values(|v: Vector| v@)
}

/// Takes from the cache the vectors that it has, and gives the items left.
pub fn take_hits(items: Vec<Item>, cache: &VectorCache) -> (r: (StringHashMap<Vector>, Vec<Item>))
    ensures
        vectors_view(r.0@) == hits(views(items@), cache@.vectors),
        views(r.1@) == misses(views(items@), cache@.vectors),
{
    let ghost all = views(items@);
    let mut vectors: StringHashMap<Vector> = StringHashMap::new();
    let mut missed: Vec<Item> = Vec::new();
    assert(vectors_view(vectors@) =~= hits(all.take(0), cache@.vectors));
    assert(views(missed@) =~= misses(all.take(0), cache@.vectors));
    for item in it: items.into_iter()
        invariant
            all == views(it.seq()),
            vectors_view(vectors@) == hits(all.take(it.index() as int), cache@.vectors),
            views(missed@) == misses(all.take(it.index() as int), cache@.vectors),
    {
        let ghost i = it.index() as int;
        let ghost before = vectors_view(vectors@);
        let ghost left = views(missed@);
        proof {
            assert(all.take(i + 1).drop_last() =~= all.take(i));
            assert(all.take(i + 1).last() == item@);
        }
        let hash = cache.content_hash(item.text.as_str());
        match cache.get(hash.as_str()) {
            Some(v) => {
                let copy = copy_vector(v);
                vectors.insert(item.id, copy);
                assert(vectors_view(vectors@) =~= before.insert(item.id@, copy@));
            },
            None => {
                missed.push(item);
                assert(views(missed@) =~= left.push(item@));
            },
        }
    }
    assert(all.take(all.len() as int) =~= all);
    (vectors, missed)
}

/// Puts fresh vectors into the cache and among the vectors, one for each item
/// as far as they go.
pub fn put_fresh(
    items: Vec<Item>,
    fresh: Vec<Vector>,
    vectors: &mut StringHashMap<Vector>,
    cache: &mut VectorCache,
)
    ensures
        ({
            let n = paired(views(items@), views(fresh@));
            &&& vectors_view(final(vectors)@) == with_vectors(
                vectors_view(old(vectors)@),
                views(items@),
                views(fresh@),
                n,
            )
            &&& final(cache)@.vectors == with_cached(
                old(cache)@.vectors,
                views(items@),
                views(fresh@),
                n,
            )
            &&& final(cache)@.dir == old(cache)@.dir
            &&& final(cache)@.model_id == old(cache)@.model_id
        }),
{
    let ghost is = views(items@);
    let ghost fs = views(fresh@);
    let ghost vectors0 = vectors_view(vectors@);
    let ghost cache0 = cache@;
    let n: usize = if items.len() <= fresh.len() {
        items.len()
    } else {
        fresh.len()
    };
    let mut i: usize = 0;
    assert(n == paired(is, fs));
    while i < n
        invariant
            is == views(items@),
            fs == views(fresh@),
            i <= n <= items.len(),
            n <= fresh.len(),
            vectors_view(vectors@) == with_vectors(vectors0, is, fs, i as int),
            cache@.vectors == with_cached(cache0.vectors, is, fs, i as int),
            cache@.dir == cache0.dir,
            cache@.model_id == cache0.model_id,
        decreases n - i,
    {
        let ghost before = vectors_view(vectors@);
        assert(is[i as int] == items@[i as int]@ && fs[i as int] == fresh@[i as int]@);
        let hash = cache.content_hash(items[i].text.as_str());
        cache.put(hash.as_str(), &fresh[i]);
        let copy = copy_vector(&fresh[i]);
        vectors.insert(items[i].id.clone(), copy);
        assert(vectors_view(vectors@) =~= before.insert(is[i as int].id, fs[i as int]));
        i = i + 1;
    }
}

fn item_texts(items: &Vec<Item>) -> (r: Vec<String>)
    ensures
        views(r@) == texts_of(views(items@)),
{
    let mut r: Vec<String> = Vec::new();
    for i in 0..items.len()
        invariant
            r.len() == i,
            forall|j: int| 0 <= j < i ==> (#[trigger] r@[j])@ == items@[j].text@,
    {
        r.push(items[i].text.clone());
    }
    assert(views(r@) =~= texts_of(views(items@)));
    r
}

/// Whether the embedder may have made `fresh` of the texts, or failed.
pub open spec fn embeds<E: Embedder>(
    embedder: &E,
    texts: Seq<Seq<char>>,
    fresh: Result<Vec<Vector>, EmbedError>,
) -> bool {
    exists|ts: &Vec<String>|
        views(ts@) == texts && #[trigger] call_ensures(E::embed_passages, (embedder, ts), fresh)
}

/// Gives each record its vector: from the cache, or from the embedder, which
/// is asked once for all texts that the cache does not know, if there are any.
pub fn embed_all<E: Embedder>(items: Vec<Item>, embedder: &E, cache: &mut VectorCache) -> (r: Result<
    StringHashMap<Vector>,
    BuildError,
>)
    ensures
        final(cache)@.dir == old(cache)@.dir,
        final(cache)@.model_id == old(cache)@.model_id,
        ({
            let known = hits(views(items@), old(cache)@.vectors);
            let missed = misses(views(items@), old(cache)@.vectors);
            if missed.len() == 0 {
                r is Ok && vectors_view(r->Ok_0@) == known && final(cache)@ == old(cache)@
            } else {
                exists|fresh: Result<Vec<Vector>, EmbedError>| #[trigger]
                    embeds(embedder, texts_of(missed), fresh) && match fresh {
                        Ok(vs) => {
                            let n = paired(missed, views(vs@));
                            &&& r is Ok
                            &&& vectors_view(r->Ok_0@) == with_vectors(
                                known,
                                missed,
                                views(vs@),
                                n,
                            )
                            &&& final(cache)@.vectors == with_cached(
                                old(cache)@.vectors,
                                missed,
                                views(vs@),
                                n,
                            )
                        },
                        Err(e) => r is Err && r->Err_0@ == "embedding failed: "@ + e@
                            && final(cache)@ == old(cache)@,
                    }
            }
        }),
{
    let (mut vectors, missed) = take_hits(items, cache);
    assert(views(missed@).len() == missed@.len());
    if missed.len() > 0 {
        let texts = item_texts(&missed);
        let fresh = embedder.embed_passages(&texts);
        assert(embeds(embedder, views(texts@), fresh)) by {
            assert(call_ensures(E::embed_passages, (embedder, &texts), fresh));
        }
        match fresh {
            Ok(vs) => {
                put_fresh(missed, vs, &mut vectors, cache);
            },
            Err(e) => {
                return Err(BuildError(join2("embedding failed: ", e.0.as_str())));
            },
        }
    }
    Ok(vectors)
}

/// Whether a snapshot may be what the files make: the records are those that
/// were read and linked, the verdicts are those on them, and what is wrong is
/// what discovery found and what linking found.
pub open spec fn snapshot_of<F: Fn(&str) -> Result<RawRecord, String>>(
    files: Seq<SourceFileView>,
    found: Seq<DiagnosticView>,
    decode: F,
    parsed: Seq<ParsedView>,
    linked: LinkedView,
    snap: SnapshotView,
) -> bool {
    &&& read_as(files, decode, parsed)
    &&& links(parsed, linked)
    &&& snap.graph.decisions == linked.decisions
    &&& snap.graph.forces == linked.forces
    &&& snap.sound()
    &&& snap.diagnostics == found + linked.diagnostics
}

/// Whether files may be read as `parsed`.
pub open spec fn read_as<F: Fn(&str) -> Result<RawRecord, String>>(
    files: Seq<SourceFileView>,
    decode: F,
    parsed: Seq<ParsedView>,
) -> bool {
    &&& parsed.len() == files.len()
    &&& forall|i: int|
        0 <= i < files.len() ==> reads(
            decode,
            files[i].path,
            files[i].text,
            #[trigger] parsed[i],
        )
}

proof fn lemma_read_all<F: Fn(&str) -> Result<RawRecord, String>>(
    files: Seq<SourceFileView>,
    decode: F,
    parsed: Seq<ParsedView>,
)
    requires
        read_as(files, decode, parsed),
    ensures
        forall|p: ParsedView| #[trigger] parsed.contains(p) ==> well_read(p),
{
    assert forall|p: ParsedView| #[trigger] parsed.contains(p) implies well_read(p) by {
        let i = choose|i: int| 0 <= i < parsed.len() && parsed[i] == p;
        law_read_is_well_read(decode, files[i].path, files[i].text, parsed[i]);
    }
}

/// Records with different ids are distinct.
pub proof fn lemma_distinct_ids(g: GraphView)
    requires
        (decision_ids(g.decisions) + force_ids(g.forces)).no_duplicates(),
    ensures
        distinct_ids(g),
{
    let ids = decision_ids(g.decisions) + force_ids(g.forces);
    assert forall|i: int, j: int| 0 <= i < j < g.records().len() implies (
    #[trigger] g.records()[i]).id() != (#[trigger] g.records()[j]).id() by {
        assert(g.records()[i].id() == ids[i]);
        assert(g.records()[j].id() == ids[j]);
    }
}

/// Whether building a snapshot with the given embedder may give `r`, and leave
/// the cache as `after`. The snapshot holds what the files make; its vectors
/// come from the embedder's model, out of the cache or fresh.
pub open spec fn builds<E: Embedder, F: Fn(&str) -> Result<RawRecord, String>>(
    files: Seq<SourceFileView>,
    found: Seq<DiagnosticView>,
    decode: F,
    embedder: &E,
    cache: CacheView,
    r: Result<Snapshot, BuildError>,
    after: CacheView,
) -> bool {
    exists|parsed: Seq<ParsedView>, linked: LinkedView, m: String|
        #![trigger links(parsed, linked), call_ensures(E::model_id, (embedder,), m)]
        {
            let before = cache_for(cache, m@);
            let known = hits(items_of(linked), before.vectors);
            let missed = misses(items_of(linked), before.vectors);
            &&& call_ensures(E::model_id, (embedder,), m)
            &&& after.dir == before.dir
            &&& after.model_id == before.model_id
            &&& r is Ok ==> r->Ok_0@.model_id == m@
            &&& read_as(files, decode, parsed)
            &&& links(parsed, linked)
            &&& r is Ok ==> snapshot_of(files, found, decode, parsed, linked, r->Ok_0@)
            &&& missed.len() == 0 ==> r is Ok && r->Ok_0@.vectors == known && after == before
            &&& missed.len() > 0 ==> exists|fresh: Result<Vec<Vector>, EmbedError>| #[trigger]
                embeds(embedder, texts_of(missed), fresh) && match fresh {
                    Ok(vs) => {
                        let n = paired(missed, views(vs@));
                        &&& r is Ok
                        &&& r->Ok_0@.vectors == with_vectors(known, missed, views(vs@), n)
                        &&& after.vectors == with_cached(before.vectors, missed, views(vs@), n)
                    },
                    Err(e) => r is Err && r->Err_0@ == "embedding failed: "@ + e@ && after
                        == before,
                }
        }
}

/// Whether a text may be the name of the embedder's model.
pub open spec fn names_model<E: Embedder>(embedder: &E, model_id: Seq<char>) -> bool {
    exists|m: String| m@ == model_id && #[trigger] call_ensures(E::model_id, (embedder,), m)
}

/// A snapshot that is built is sound, and its vectors are of the embedder's model.
pub proof fn law_built_is_sound<E: Embedder, F: Fn(&str) -> Result<RawRecord, String>>(
    files: Seq<SourceFileView>,
    found: Seq<DiagnosticView>,
    decode: F,
    embedder: &E,
    cache: CacheView,
    r: Result<Snapshot, BuildError>,
    after: CacheView,
)
    requires
        builds(files, found, decode, embedder, cache, r, after),
        r is Ok,
    ensures
        r->Ok_0@.sound(),
        names_model(embedder, r->Ok_0@.model_id),
        after.model_id == r->Ok_0@.model_id,
{
}

impl Snapshot {
    /// Builds the snapshot of a corpus from its files and from what was wrong
    /// in finding them. A file that is no good record is reported and left
    /// out; only the embedder can make the whole fail. Vectors are taken from
    /// the cache only where they come from the embedder's model.
    pub fn build<E: Embedder, F: Fn(&str) -> Result<RawRecord, String>>(
        files: &Vec<SourceFile>,
        found: Vec<Diagnostic>,
        decode: &F,
        embedder: &E,
        cache: &mut VectorCache,
    ) -> (r: Result<Snapshot, BuildError>)
        requires
            forall|yaml: &str| call_requires(*decode, (yaml,)),
            files.len() <= u32::MAX,
        ensures
            builds(
                views(files@),
                views(found@),
                *decode,
                embedder,
                old(cache)@,
                r,
                final(cache)@,
            ),
    {
        let ghost fs = views(files@);
        let model_id = embedder.model_id();
        assert(call_ensures(E::model_id, (embedder,), model_id));
        cache.serve(model_id.as_str());
        let parsed = read_all(files, decode);
        let ghost ps = views(parsed@);
        let linked = link(parsed);
        let ghost lv = linked@;
        let graph = Graph::build(&linked);
        proof {
            assert(read_as(fs, *decode, ps)) by {
                assert forall|i: int| 0 <= i < fs.len() implies reads(
                    *decode,
                    fs[i].path,
                    fs[i].text,
                    #[trigger] ps[i],
                ) by {
                    assert(fs[i] == files@[i]@);
                }
            }
            lemma_read_all(fs, *decode, ps);
            law_kept_forces_have_history(ps);
            law_kept_are_no_more(ps);
            law_linked_ids(ps);
            assert(links(ps, lv));
            lemma_distinct_ids(graph@);
        }
        let verdicts = judge(&graph);
        let items = collect_items(&linked);
        let vectors = match embed_all(items, embedder, cache) {
            Ok(v) => v,
            Err(e) => {
                return Err(e);
            },
        };
        let mut diagnostics = found;
        let ghost first = views(diagnostics@);
        let ghost second = views(linked.diagnostics@);
        let mut more = linked.diagnostics;
        diagnostics.append(&mut more);
        assert(views(diagnostics@) =~= first + second);
        let snap = Snapshot {
            graph,
            verdicts,
            diagnostics,
            vectors,
            model_id,
            built_at: now_millis(),
        };
        assert(snapshot_of(fs, first, *decode, ps, lv, snap@));
        Ok(snap)
    }
}

/// What is embedded for a record: its title and its body, with an empty line
/// between them, and a last paragraph with its tags, where it has any.
pub open spec fn searched_text(r: RecordView) -> Seq<char> {
    let (title, body, tags) = match r {
        RecordView::Decision(d) => (d.title, d.body, d.tags),
        RecordView::Force(f) => (f.title, f.body, f.tags),
    };
    title + "\n\n"@ + body + (if tags.len() > 0 {
        "\n\nTags: "@ + joined_texts(tags, ", "@)
    } else {
        Seq::empty()
    })
}

proof fn lemma_items(g: GraphView, linked: LinkedView)
    requires
        g.decisions == linked.decisions,
        g.forces == linked.forces,
    ensures
        items_of(linked).len() == g.records().len(),
        forall|i: int|
            0 <= i < g.records().len() ==> (#[trigger] items_of(linked)[i]).id
                == g.records()[i].id() && items_of(linked)[i].text == searched_text(g.records()[i]),
{
    let items = items_of(linked);
    assert forall|i: int| 0 <= i < g.records().len() implies (#[trigger] items[i]).id
        == g.records()[i].id() && items[i].text == searched_text(g.records()[i]) by {
        let n = g.decisions.len() as int;
        if i < n {
            assert(g.records()[i] == RecordView::Decision(g.decisions[i]));
        } else {
            assert(g.records()[i] == RecordView::Force(g.forces[i - n]));
        }
        assert(items[i].text =~= searched_text(g.records()[i]));
    }
}

/// Whether items have different ids.
spec fn are_apart(items: Seq<ItemView>) -> bool {
    forall|i: int, j: int|
        0 <= i < j < items.len() ==> (#[trigger] items[i]).id != (#[trigger] items[j]).id
}

proof fn lemma_hits(items: Seq<ItemView>, cache: Map<Seq<char>, Seq<Single>>)
    requires
        are_apart(items),
    ensures
        forall|i: int|
            0 <= i < items.len() ==> (hits(items, cache).contains_key((#[trigger] items[i]).id)
                <==> cache.contains_key(sha256_hex(items[i].text))),
        forall|i: int|
            0 <= i < items.len() && cache.contains_key(sha256_hex((#[trigger] items[i]).text))
                ==> hits(items, cache)[items[i].id] == cache[sha256_hex(items[i].text)],
        forall|id: Seq<char>| #[trigger]
            hits(items, cache).contains_key(id) ==> exists|i: int|
                0 <= i < items.len() && (#[trigger] items[i]).id == id,
    decreases items.len(),
{
    if items.len() > 0 {
        let t = items.drop_last();
        assert(are_apart(t)) by {
            assert forall|i: int, j: int| 0 <= i < j < t.len() implies (#[trigger] t[i]).id != (
            #[trigger] t[j]).id by {
                assert(items[i].id != items[j].id);
            }
        }
        lemma_hits(t, cache);
        let n = t.len() as int;
        assert forall|i: int| 0 <= i < n implies (#[trigger] items[i]) == t[i] && items[i].id
            != items[n].id by {}
        if hits(t, cache).contains_key(items[n].id) {
            let i = choose|i: int| 0 <= i < t.len() && (#[trigger] t[i]).id == items[n].id;
            assert(items[i].id != items[n].id);
        }
        assert forall|id: Seq<char>| #[trigger]
            hits(items, cache).contains_key(id) implies exists|i: int|
            0 <= i < items.len() && (#[trigger] items[i]).id == id by {
            if id == items[n].id {
            } else {
                assert(hits(t, cache).contains_key(id));
                let i = choose|i: int| 0 <= i < t.len() && (#[trigger] t[i]).id == id;
                assert(items[i].id == id);
            }
        }
    }
}

/// The items that are missed are those that the cache does not know, in order.
proof fn lemma_misses(items: Seq<ItemView>, cache: Map<Seq<char>, Seq<Single>>)
    requires
        are_apart(items),
    ensures
        forall|i: int|
            0 <= i < items.len() && !cache.contains_key(sha256_hex((#[trigger] items[i]).text))
                ==> misses(items, cache).contains(items[i]),
        forall|j: int|
            0 <= j < misses(items, cache).len() ==> items.contains(
                #[trigger] misses(items, cache)[j],
            ) && !cache.contains_key(sha256_hex(misses(items, cache)[j].text)),
        are_apart(misses(items, cache)),
    decreases items.len(),
{
    if items.len() > 0 {
        let t = items.drop_last();
        assert(are_apart(t)) by {
            assert forall|i: int, j: int| 0 <= i < j < t.len() implies (#[trigger] t[i]).id != (
            #[trigger] t[j]).id by {
                assert(items[i].id != items[j].id);
            }
        }
        lemma_misses(t, cache);
        let n = t.len() as int;
        let a = misses(t, cache);
        let b = misses(items, cache);
        lemma_push_contains(a, items[n]);
        assert forall|i: int|
            0 <= i < items.len() && !cache.contains_key(
                sha256_hex((#[trigger] items[i]).text),
            ) implies b.contains(items[i]) by {
            if i < n {
                assert(t[i] == items[i]);
                assert(a.contains(t[i]));
            }
        }
        assert forall|j: int| 0 <= j < b.len() implies items.contains(#[trigger] b[j])
            && !cache.contains_key(sha256_hex(b[j].text)) by {
            if j < a.len() {
                assert(b[j] == a[j]);
                let i = choose|i: int| 0 <= i < t.len() && t[i] == a[j];
                assert(items[i] == b[j]);
            } else {
                assert(b[j] == items[n]);
            }
        }
        assert forall|i: int, j: int| 0 <= i < j < b.len() implies (#[trigger] b[i]).id != (
        #[trigger] b[j]).id by {
            if j < a.len() {
                assert(b[i] == a[i] && b[j] == a[j]);
            } else {
                assert(b[i] == a[i]);
                assert(t.contains(a[i]));
                let k = choose|k: int| 0 <= k < t.len() && t[k] == a[i];
                assert(items[k].id != items[n].id);
            }
        }
    }
}

proof fn lemma_with_vectors(
    vectors: Map<Seq<char>, Seq<Single>>,
    items: Seq<ItemView>,
    fresh: Seq<Seq<Single>>,
    n: int,
)
    requires
        are_apart(items),
        0 <= n <= items.len(),
    ensures
        forall|i: int|
            0 <= i < n ==> with_vectors(vectors, items, fresh, n).contains_key(
                (#[trigger] items[i]).id,
            ) && with_vectors(vectors, items, fresh, n)[items[i].id] == fresh[i],
        forall|id: Seq<char>|
            (forall|i: int| 0 <= i < n ==> (#[trigger] items[i]).id != id) ==> (
            #[trigger] with_vectors(vectors, items, fresh, n).contains_key(id)
                <==> vectors.contains_key(id)) && (vectors.contains_key(id) ==> with_vectors(
                vectors,
                items,
                fresh,
                n,
            )[id] == vectors[id]),
    decreases n,
{
    if n > 0 {
        lemma_with_vectors(vectors, items, fresh, n - 1);
        assert forall|i: int| 0 <= i < n - 1 implies (#[trigger] items[i]).id != items[n - 1].id by {}
        assert forall|id: Seq<char>|
            (forall|i: int| 0 <= i < n ==> (#[trigger] items[i]).id != id) implies (
        #[trigger] with_vectors(vectors, items, fresh, n).contains_key(id)
            <==> vectors.contains_key(id)) && (vectors.contains_key(id) ==> with_vectors(
            vectors,
            items,
            fresh,
            n,
        )[id] == vectors[id]) by {
            assert(items[n - 1].id != id);
            assert(with_vectors(vectors, items, fresh, n - 1).contains_key(id)
                <==> vectors.contains_key(id));
        }
    }
}

proof fn lemma_with_cached(
    cache: Map<Seq<char>, Seq<Single>>,
    items: Seq<ItemView>,
    fresh: Seq<Seq<Single>>,
    n: int,
)
    requires
        0 <= n <= items.len(),
    ensures
        forall|i: int|
            0 <= i < n ==> with_cached(cache, items, fresh, n).contains_key(
                sha256_hex((#[trigger] items[i]).text),
            ),
        forall|h: Seq<char>|
            cache.contains_key(h) && (forall|i: int|
                0 <= i < n ==> sha256_hex((#[trigger] items[i]).text) != h)
                ==> #[trigger] with_cached(cache, items, fresh, n).contains_key(h) && with_cached(
                cache,
                items,
                fresh,
                n,
            )[h] == cache[h],
    decreases n,
{
    if n > 0 {
        lemma_with_cached(cache, items, fresh, n - 1);
        assert forall|h: Seq<char>|
            cache.contains_key(h) && (forall|i: int|
                0 <= i < n ==> sha256_hex((#[trigger] items[i]).text) != h) implies
            #[trigger] with_cached(cache, items, fresh, n).contains_key(h) && with_cached(
            cache,
            items,
            fresh,
            n,
        )[h] == cache[h] by {
            assert(sha256_hex(items[n - 1].text) != h);
            assert(with_cached(cache, items, fresh, n - 1).contains_key(h));
        }
    }
}

/// Whether an embedder was asked for a text among others, and `id` has the
/// vector that it gave for that text, and none where it gave too few.
pub open spec fn has_fresh_vector<E: Embedder>(
    embedder: &E,
    text: Seq<char>,
    vectors: Map<Seq<char>, Seq<Single>>,
    id: Seq<char>,
) -> bool {
    exists|ts: &Vec<String>, vs: Vec<Vector>, j: int|
        #![trigger call_ensures(E::embed_passages, (embedder, ts), Ok::<Vec<Vector>, EmbedError>(vs)), ts@[j]]
        {
            &&& call_ensures(
                E::embed_passages,
                (embedder, ts),
                Ok::<Vec<Vector>, EmbedError>(vs),
            )
            &&& 0 <= j < ts.len()
            &&& ts@[j]@ == text
            &&& vectors.contains_key(id) <==> j < vs.len()
            &&& j < vs.len() ==> vectors[id] == vs@[j]@
        }
}

/// Every record of a snapshot that is built has the vector of its own text: the
/// one that the cache of the same model has for it, and otherwise the one that
/// the embedder gives for it. Nothing but a record has a vector, and the cache
/// loses nothing.
pub proof fn law_records_get_their_own_vectors<
    E: Embedder,
    F: Fn(&str) -> Result<RawRecord, String>,
>(
    files: Seq<SourceFileView>,
    found: Seq<DiagnosticView>,
    decode: F,
    embedder: &E,
    cache: CacheView,
    r: Result<Snapshot, BuildError>,
    after: CacheView,
    i: int,
    id: Seq<char>,
    hash: Seq<char>,
)
    requires
        builds(files, found, decode, embedder, cache, r, after),
        r is Ok,
        0 <= i < r->Ok_0@.graph.records().len(),
    ensures
        ({
            let snap = r->Ok_0@;
            let record = snap.graph.records()[i];
            let text = searched_text(record);
            let same_model = cache.model_id == snap.model_id;
            &&& if same_model && cache.vectors.contains_key(sha256_hex(text)) {
                &&& snap.vectors.contains_key(record.id())
                &&& snap.vectors[record.id()] == cache.vectors[sha256_hex(text)]
            } else {
                &&& has_fresh_vector(embedder, text, snap.vectors, record.id())
                &&& snap.vectors.contains_key(record.id()) ==> after.vectors.contains_key(
                    sha256_hex(text),
                )
            }
            &&& snap.vectors.contains_key(id) ==> exists|k: int|
                0 <= k < snap.graph.records().len() && (#[trigger] snap.graph.records()[k]).id()
                    == id
            &&& same_model && cache.vectors.contains_key(hash) ==> after.vectors.contains_key(hash)
                && after.vectors[hash] == cache.vectors[hash]
        }),
{
    let snap = r->Ok_0@;
    let g = snap.graph;
    let (parsed, linked, m) = choose|parsed: Seq<ParsedView>, linked: LinkedView, m: String|
        #![trigger links(parsed, linked), call_ensures(E::model_id, (embedder,), m)]
        {
            let first = cache_for(cache, m@);
            let known = hits(items_of(linked), first.vectors);
            let missed = misses(items_of(linked), first.vectors);
            &&& call_ensures(E::model_id, (embedder,), m)
            &&& after.dir == first.dir
            &&& after.model_id == first.model_id
            &&& r is Ok ==> r->Ok_0@.model_id == m@
            &&& read_as(files, decode, parsed)
            &&& links(parsed, linked)
            &&& r is Ok ==> snapshot_of(files, found, decode, parsed, linked, r->Ok_0@)
            &&& missed.len() == 0 ==> r is Ok && r->Ok_0@.vectors == known && after == first
            &&& missed.len() > 0 ==> exists|fresh: Result<Vec<Vector>, EmbedError>| #[trigger]
                embeds(embedder, texts_of(missed), fresh) && match fresh {
                    Ok(vs) => {
                        let n = paired(missed, views(vs@));
                        &&& r is Ok
                        &&& r->Ok_0@.vectors == with_vectors(known, missed, views(vs@), n)
                        &&& after.vectors == with_cached(first.vectors, missed, views(vs@), n)
                    },
                    Err(e) => r is Err && r->Err_0@ == "embedding failed: "@ + e@ && after
                        == first,
                }
        };
    let first = cache_for(cache, m@);
    let items = items_of(linked);
    let known = hits(items, first.vectors);
    let missed = misses(items, first.vectors);
    lemma_items(g, linked);
    assert(are_apart(items)) by {
        assert forall|a: int, b: int| 0 <= a < b < items.len() implies (#[trigger] items[a]).id != (
        #[trigger] items[b]).id by {
            assert(g.records()[a].id() != g.records()[b].id());
        }
    }
    lemma_hits(items, first.vectors);
    lemma_misses(items, first.vectors);
    let record = g.records()[i];
    let text = searched_text(record);
    assert(items[i].id == record.id() && items[i].text == text);
    assert forall|k: int| 0 <= k < items.len() implies (#[trigger] items[k]).id
        == g.records()[k].id() by {}
    if missed.len() > 0 {
        let fresh = choose|fresh: Result<Vec<Vector>, EmbedError>| #[trigger]
            embeds(embedder, texts_of(missed), fresh) && match fresh {
                Ok(vs) => {
                    let n = paired(missed, views(vs@));
                    &&& r is Ok
                    &&& r->Ok_0@.vectors == with_vectors(known, missed, views(vs@), n)
                    &&& after.vectors == with_cached(first.vectors, missed, views(vs@), n)
                },
                Err(e) => r is Err && r->Err_0@ == "embedding failed: "@ + e@ && after == first,
            };
        let vs = fresh->Ok_0;
        let n = paired(missed, views(vs@));
        lemma_with_vectors(known, missed, views(vs@), n);
        lemma_with_cached(first.vectors, missed, views(vs@), n);
        if first.vectors.contains_key(sha256_hex(text)) {
            assert forall|k: int| 0 <= k < n implies (#[trigger] missed[k]).id != record.id() by {
                if missed[k].id == record.id() {
                    assert(items.contains(missed[k]));
                    let a = choose|a: int| 0 <= a < items.len() && items[a] == missed[k];
                    if a < i {
                        assert(items[a].id != items[i].id);
                    } else if i < a {
                        assert(items[i].id != items[a].id);
                    }
                }
            }
        } else {
            assert(missed.contains(items[i]));
            let j = choose|j: int| 0 <= j < missed.len() && missed[j] == items[i];
            let ts = choose|ts: &Vec<String>|
                views(ts@) == texts_of(missed) && #[trigger] call_ensures(
                    E::embed_passages,
                    (embedder, ts),
                    fresh,
                );
            assert(views(ts@).len() == ts@.len());
            assert(texts_of(missed).len() == missed.len());
            assert(views(ts@)[j] == texts_of(missed)[j]);
            assert(views(ts@)[j] == ts@[j]@);
            assert(fresh == Ok::<Vec<Vector>, EmbedError>(vs));
            assert(views(vs@).len() == vs@.len());
            assert(missed[j].id == record.id());
            if j < vs.len() {
                assert(views(vs@)[j] == vs@[j]@);
            } else {
                assert forall|k: int| 0 <= k < n implies (#[trigger] missed[k]).id
                    != record.id() by {
                    assert(missed[k].id != missed[j].id);
                }
            }
            assert(ts@[j]@ == text);
            assert(has_fresh_vector(embedder, text, snap.vectors, record.id()));
        }
        if snap.vectors.contains_key(id) {
            if exists|k: int| 0 <= k < n && (#[trigger] missed[k]).id == id {
                let k = choose|k: int| 0 <= k < n && (#[trigger] missed[k]).id == id;
                assert(items.contains(missed[k]));
                let a = choose|a: int| 0 <= a < items.len() && items[a] == missed[k];
                assert(g.records()[a].id() == id);
            } else {
                assert(known.contains_key(id));
                let a = choose|a: int| 0 <= a < items.len() && (#[trigger] items[a]).id == id;
                assert(g.records()[a].id() == id);
            }
        }
        if first.vectors.contains_key(hash) {
            assert forall|k: int| 0 <= k < n implies sha256_hex((#[trigger] missed[k]).text)
                != hash by {}
        }
    } else {
        if !first.vectors.contains_key(sha256_hex(text)) {
            assert(missed.contains(items[i]));
        }
        if snap.vectors.contains_key(id) {
            let a = choose|a: int| 0 <= a < items.len() && (#[trigger] items[a]).id == id;
            assert(g.records()[a].id() == id);
        }
    }
}

/// A snapshot that is built tells all that was wrong in finding the files, and
/// all that was wrong in linking what was read of them; its records are those
/// that were kept.
pub proof fn law_built_tells_all_that_is_wrong<
    E: Embedder,
    F: Fn(&str) -> Result<RawRecord, String>,
>(
    files: Seq<SourceFileView>,
    found: Seq<DiagnosticView>,
    decode: F,
    embedder: &E,
    cache: CacheView,
    r: Result<Snapshot, BuildError>,
    after: CacheView,
)
    requires
        builds(files, found, decode, embedder, cache, r, after),
        r is Ok,
    ensures
        forall|k: int|
            0 <= k < found.len() ==> k < r->Ok_0@.diagnostics.len() && r->Ok_0@.diagnostics[k]
                == #[trigger] found[k],
        exists|parsed: Seq<ParsedView>, linked: LinkedView|
            {
                &&& parsed.len() == files.len()
                &&& forall|i: int|
                    0 <= i < files.len() ==> reads(
                        decode,
                        files[i].path,
                        files[i].text,
                        #[trigger] parsed[i],
                    )
                &&& #[trigger] links(parsed, linked)
                &&& r->Ok_0@.graph.decisions == linked.decisions
                &&& r->Ok_0@.graph.forces == linked.forces
                &&& r->Ok_0@.diagnostics.len() == found.len() + linked.diagnostics.len()
                &&& forall|k: int|
                    0 <= k < linked.diagnostics.len() ==> r->Ok_0@.diagnostics[found.len() + k]
                        == #[trigger] linked.diagnostics[k]
            },
{
    let (parsed, linked, m) = choose|parsed: Seq<ParsedView>, linked: LinkedView, m: String|
        #![trigger links(parsed, linked), call_ensures(E::model_id, (embedder,), m)]
        call_ensures(E::model_id, (embedder,), m) && read_as(files, decode, parsed) && links(
            parsed,
            linked,
        ) && snapshot_of(files, found, decode, parsed, linked, r->Ok_0@);
    assert(links(parsed, linked));
}

/// Nothing but the embedder makes building fail. The failure says why, and
/// leaves the cache with all that it had of the model.
pub proof fn law_only_the_embedder_fails<
    E: Embedder,
    F: Fn(&str) -> Result<RawRecord, String>,
>(
    files: Seq<SourceFileView>,
    found: Seq<DiagnosticView>,
    decode: F,
    embedder: &E,
    cache: CacheView,
    r: Result<Snapshot, BuildError>,
    after: CacheView,
)
    requires
        builds(files, found, decode, embedder, cache, r, after),
        r is Err,
    ensures
        after.dir == cache.dir,
        after.model_id == cache.model_id ==> after.vectors == cache.vectors,
        exists|ts: &Vec<String>, e: EmbedError|
            ts.len() > 0 && r->Err_0@ == "embedding failed: "@ + e@ && #[trigger] call_ensures(
                E::embed_passages,
                (embedder, ts),
                Err::<Vec<Vector>, EmbedError>(e),
            ),
{
    let (parsed, linked, m) = choose|parsed: Seq<ParsedView>, linked: LinkedView, m: String|
        #![trigger links(parsed, linked), call_ensures(E::model_id, (embedder,), m)]
        {
            let first = cache_for(cache, m@);
            let known = hits(items_of(linked), first.vectors);
            let missed = misses(items_of(linked), first.vectors);
            &&& call_ensures(E::model_id, (embedder,), m)
            &&& after.dir == first.dir
            &&& after.model_id == first.model_id
            &&& links(parsed, linked)
            &&& missed.len() == 0 ==> r is Ok
            &&& missed.len() > 0 ==> exists|fresh: Result<Vec<Vector>, EmbedError>| #[trigger]
                embeds(embedder, texts_of(missed), fresh) && match fresh {
                    Ok(vs) => r is Ok,
                    Err(e) => r is Err && r->Err_0@ == "embedding failed: "@ + e@ && after
                        == first,
                }
        };
    let first = cache_for(cache, m@);
    let missed = misses(items_of(linked), first.vectors);
    let fresh = choose|fresh: Result<Vec<Vector>, EmbedError>| #[trigger]
        embeds(embedder, texts_of(missed), fresh) && match fresh {
            Ok(vs) => r is Ok,
            Err(e) => r is Err && r->Err_0@ == "embedding failed: "@ + e@ && after == first,
        };
    let ts = choose|ts: &Vec<String>|
        views(ts@) == texts_of(missed) && #[trigger] call_ensures(
            E::embed_passages,
            (embedder, ts),
            fresh,
        );
    assert(views(ts@).len() == ts@.len());
    assert(texts_of(missed).len() == missed.len());
    let e = fresh->Err_0;
    assert(fresh == Err::<Vec<Vector>, EmbedError>(e));
    assert(call_ensures(
        E::embed_passages,
        (embedder, ts),
        Err::<Vec<Vector>, EmbedError>(e),
    ));
}

} // verus!
