//! The way of a corpus through the library, from its files to the replies.
use std::cell::Cell;

use forge_core::commit::{Commit, StatusReceipt};
use forge_core::config::{Config, ConfigError, RawConfig};
use forge_core::discovery::{discover, Listed, Root};
use forge_core::embed::cache::VectorCache;
use forge_core::embed::fake::{BucketEmbedder, PinnedEmbedder};
use forge_core::embed::{default_embedder, prefetch_model, Choice, EmbedError, Embedder, NullEmbedder};
use forge_core::graph::{Graph, Record};
use forge_core::guardian::{today_iso, Engine, ForceInput, ProposeInput, Proposed};
use forge_core::judge::{distances, judge, PremiseVerdict, Verdicts};
use forge_core::linker::{link, Diagnostic, Linked, RefField};
use forge_core::paths::System;
use forge_core::recall::{near_matches, pick_near, rank, search, Scope};
use forge_core::record::{
    parse, Decision, DecisionStatus, Force, ForceStatus, Parsed, RawRecord, StatusEntry,
};
use forge_core::scaffold;
use forge_core::score::{Double, Single, Vector};
use forge_core::serialize::{serialize_decision, serialize_force};
use forge_core::server::{
    default_limit, set_up, Body, ForceSpec, Init, Need, Phase, ProposeParams, RecordReply, Reply,
    Step,
};
use forge_core::snapshot::{BuildError, Snapshot, SourceFile};
use serde_yaml::Value;

// ---- reading frontmatter -------------------------------------------------

fn text_in(v: &Value, key: &str) -> Result<Option<String>, String> {
    match v.get(key) {
        None | Some(Value::Null) => Ok(None),
        Some(Value::String(s)) => Ok(Some(s.clone())),
        Some(_) => Err(format!("{key}: expected a string")),
    }
}

fn need(v: &Value, key: &str) -> Result<String, String> {
    text_in(v, key)?.ok_or(format!("missing field `{key}`"))
}

fn texts_in(v: &Value, key: &str) -> Result<Vec<String>, String> {
    let mut out = Vec::new();
    if let Some(list) = v.get(key) {
        let list = list.as_sequence().ok_or(format!("{key}: expected a sequence"))?;
        for item in list {
            out.push(item.as_str().ok_or(format!("{key}: expected strings"))?.to_string());
        }
    }
    Ok(out)
}

fn force_status(word: &str) -> Result<ForceStatus, String> {
    match word {
        "holds" => Ok(ForceStatus::Holds),
        "changed" => Ok(ForceStatus::Changed),
        "retired" => Ok(ForceStatus::Retired),
        other => Err(format!("unknown variant `{other}`")),
    }
}

fn decision_status(word: &str) -> Result<DecisionStatus, String> {
    match word {
        "proposed" => Ok(DecisionStatus::Proposed),
        "accepted" => Ok(DecisionStatus::Accepted),
        "rejected" => Ok(DecisionStatus::Rejected),
        "deprecated" => Ok(DecisionStatus::Deprecated),
        other => Err(format!("unknown variant `{other}`")),
    }
}

fn decode(yaml: &str) -> Result<RawRecord, String> {
    let v: Value = serde_yaml::from_str(yaml).map_err(|e| e.to_string())?;
    let mut status_log = Vec::new();
    if let Some(log) = v.get("status_log") {
        for entry in log.as_sequence().ok_or("status_log: expected a sequence")? {
            status_log.push(StatusEntry {
                status: force_status(&need(entry, "status")?)?,
                since: need(entry, "since")?,
            });
        }
    }
    let status = match text_in(&v, "status")? {
        Some(word) => Some(decision_status(&word)?),
        None => None,
    };
    Ok(RawRecord {
        id: need(&v, "id")?,
        rec_type: need(&v, "type")?,
        title: need(&v, "title")?,
        status,
        date: text_in(&v, "date")?,
        cites: texts_in(&v, "cites")?,
        supersedes: texts_in(&v, "supersedes")?,
        relates: texts_in(&v, "relates")?,
        anchors: v.get("anchors").and_then(|a| a.as_sequence()).cloned().unwrap_or_default(),
        depends_on: texts_in(&v, "dependsOn")?,
        status_log,
        superseded_by: text_in(&v, "supersededBy")?,
        tags: texts_in(&v, "tags")?,
    })
}

fn read(path: &str, text: &str) -> Parsed {
    parse(path, text, &decode)
}

// ---- vectors -------------------------------------------------------------

fn single(x: f32) -> Single {
    Single { bits: x.to_bits() }
}

fn double(x: f64) -> Double {
    Double { bits: x.to_bits() }
}

fn wide(d: Double) -> f64 {
    f64::from_bits(d.bits)
}

fn vector(xs: &[f32]) -> Vector {
    xs.iter().map(|x| single(*x)).collect()
}

fn floats(v: &Vector) -> Vec<f32> {
    v.iter().map(|s| f32::from_bits(s.bits)).collect()
}

fn float(s: Single) -> f32 {
    f32::from_bits(s.bits)
}

fn cosine(a: &[f32], b: &[f32]) -> f32 {
    if a.is_empty() || b.is_empty() {
        return 0.0;
    }
    let dot: f32 = a.iter().zip(b.iter()).map(|(x, y)| x * y).sum();
    let na: f32 = a.iter().map(|x| x * x).sum::<f32>().sqrt();
    let nb: f32 = b.iter().map(|x| x * x).sum::<f32>().sqrt();
    if na == 0.0 || nb == 0.0 {
        0.0
    } else {
        dot / (na * nb)
    }
}

fn similarity(a: &Vector, b: &Vector) -> Single {
    single(cosine(&floats(a), &floats(b)))
}

struct Bucket(BucketEmbedder);

fn bucket() -> Bucket {
    Bucket(BucketEmbedder::default())
}

impl Embedder for Bucket {
    fn model_id(&self) -> String {
        self.0.model_id().to_string()
    }

    fn embed_passages(&self, texts: &Vec<String>) -> Result<Vec<Vector>, EmbedError> {
        texts.iter().map(|t| self.embed_query(t)).collect()
    }

    fn embed_query(&self, text: &str) -> Result<Vector, EmbedError> {
        let counts = self.0.embed_text(text);
        let norm = counts.iter().map(|c| (*c as f32) * (*c as f32)).sum::<f32>().sqrt();
        if norm == 0.0 {
            return Ok(vector(&vec![0.0; 256]));
        }
        Ok(counts.iter().map(|c| single(*c as f32 / norm)).collect())
    }
}

/// An embedder that can embed nothing.
/// An embedder that embeds some batches of records, and then fails.
struct Fickle {
    left: Cell<u32>,
}

impl Embedder for Fickle {
    fn model_id(&self) -> String {
        "fickle".to_string()
    }

    fn embed_passages(&self, texts: &Vec<String>) -> Result<Vec<Vector>, EmbedError> {
        if self.left.get() == 0 {
            return Err(EmbedError("no more".to_string()));
        }
        self.left.set(self.left.get() - 1);
        Ok(texts.iter().map(|_| vector(&[1.0])).collect())
    }

    fn embed_query(&self, _text: &str) -> Result<Vector, EmbedError> {
        Err(EmbedError("no queries".to_string()))
    }
}

struct Broken(&'static str);

impl Embedder for Broken {
    fn model_id(&self) -> String {
        self.0.to_string()
    }

    fn embed_passages(&self, _texts: &Vec<String>) -> Result<Vec<Vector>, EmbedError> {
        Err(EmbedError("no model".to_string()))
    }

    fn embed_query(&self, _text: &str) -> Result<Vector, EmbedError> {
        Err(EmbedError("no model".to_string()))
    }
}

// ---- files ---------------------------------------------------------------

#[derive(Clone)]
struct Disk {
    files: Vec<(String, String)>,
}

impl Disk {
    fn text(&self, path: &str) -> String {
        self.files.iter().find(|f| f.0 == path).map(|f| f.1.clone()).unwrap()
    }

    fn write(&mut self, path: &str, text: &str) {
        self.files.retain(|f| f.0 != path);
        self.files.push((path.to_string(), text.to_string()));
    }

    fn commit(&mut self, c: &Commit) {
        for f in &c.files {
            assert!(self.files.iter().all(|g| g.0 != f.path), "a commit only adds");
            self.write(&f.path, &f.text);
        }
    }

    fn roots(&self, roots: &Vec<String>) -> Vec<Root> {
        roots
            .iter()
            .map(|r| {
                let prefix = format!("{r}/");
                let files: Vec<Listed> = self
                    .files
                    .iter()
                    .filter(|f| f.0.starts_with(&prefix))
                    .map(|f| Listed { path: f.0.clone(), text: Some(f.1.clone()) })
                    .collect();
                let there = !files.is_empty();
                Root { path: r.clone(), files: if there { Some(files) } else { None } }
            })
            .collect()
    }

    fn sources(&self, roots: &Vec<String>) -> (Vec<SourceFile>, Vec<Diagnostic>) {
        let (paths, found) = discover(&self.roots(roots));
        let files = paths
            .into_iter()
            .map(|p| SourceFile { text: self.text(&p), path: p })
            .collect();
        (files, found)
    }

    fn parsed(&self) -> Vec<Parsed> {
        let (files, _) = self.sources(&config().roots);
        files.iter().map(|f| read(&f.path, &f.text)).collect()
    }

    fn build<E: Embedder>(&self, cfg: &Config, embedder: &E) -> Result<Snapshot, BuildError> {
        let (files, found) = self.sources(&cfg.roots);
        let mut cache = VectorCache::new(cfg.cache_dir.clone(), &embedder.model_id(), None);
        Snapshot::build(&files, found, &decode, embedder, &mut cache)
    }

    fn engine<E: Embedder>(&self, embedder: E) -> Engine<E> {
        match self.try_engine(embedder) {
            Ok(e) => e,
            Err(m) => panic!("{m}"),
        }
    }

    fn try_engine<E: Embedder>(&self, embedder: E) -> Result<Engine<E>, String> {
        let cfg = config();
        let (files, found) = self.sources(&cfg.roots);
        let mut cache = VectorCache::new(cfg.cache_dir.clone(), &embedder.model_id(), None);
        Engine::new(cfg, embedder, &files, found, &decode, &mut cache)
    }

    fn try_reload<E: Embedder>(&self, engine: &mut Engine<E>) -> Result<(), String> {
        let (files, found) = self.sources(&engine.config().roots);
        let dir = engine.config().cache_dir.clone();
        let mut cache = VectorCache::new(dir, &engine.embedder().model_id(), None);
        engine.rebuild(&files, found, &decode, &mut cache)
    }

    fn reload<E: Embedder>(&self, engine: &mut Engine<E>) {
        self.try_reload(engine).unwrap();
    }
}

fn raw_config() -> RawConfig {
    RawConfig {
        roots: Some(vec!["decisions".to_string(), "forces".to_string()]),
        reuse: None,
        warn: None,
        model: Some("fake-bucket".to_string()),
        cache_dir: None,
        write_dir: None,
        log_level: None,
        log_format: None,
        log_file: None,
    }
}

fn config() -> Config {
    match Config::from_fields(System::Unix, raw_config(), "corpus", "cache".to_string()) {
        Ok(c) => c,
        Err(e) => panic!("{}", e.message()),
    }
}

fn number(v: Option<&toml::Value>) -> Option<Double> {
    v.and_then(|x| x.as_float()).map(double)
}

fn parse_toml(text: &str) -> Result<RawConfig, String> {
    let v: toml::Table = text.parse::<toml::Table>().map_err(|e| e.to_string())?;
    let roots = v.get("roots").and_then(|r| r.as_array()).map(|list| {
        list.iter().map(|r| r.as_str().unwrap().to_string()).collect::<Vec<String>>()
    });
    let dedup = v.get("dedup");
    let model = v.get("embedding").and_then(|e| e.get("model"));
    Ok(RawConfig {
        roots,
        reuse: number(dedup.and_then(|d| d.get("reuse"))),
        warn: number(dedup.and_then(|d| d.get("warn"))),
        model: model.and_then(|m| m.as_str()).map(|m| m.to_string()),
        cache_dir: None,
        write_dir: None,
        log_level: None,
        log_format: None,
        log_file: None,
    })
}

fn decision(id: &str, title: &str, status: &str, more: &str, body: &str) -> (String, String) {
    (
        format!("corpus/decisions/{id}.md"),
        format!("---\nid: {id}\ntype: decision\ntitle: {title}\nstatus: {status}\ndate: 2026-01-15\n{more}---\n{body}\n"),
    )
}

fn force(file: &str, id: &str, title: &str, more: &str, log: &[(&str, &str)], body: &str) -> (String, String) {
    let mut text = format!("---\nid: {id}\ntype: force\ntitle: \"{title}\"\n{more}status_log:\n");
    for (status, since) in log {
        text.push_str(&format!("  - {{ status: {status}, since: {since} }}\n"));
    }
    text.push_str(&format!("---\n{body}\n"));
    (format!("corpus/forces/{file}.md"), text)
}

fn fixture() -> Disk {
    let holds = [("holds", "2026-01-01")];
    Disk {
        files: vec![
            (
                "corpus/forge.toml".to_string(),
                "roots = [\"decisions\", \"forces\"]\n\n[embedding]\nmodel = \"fake-bucket\"\n".to_string(),
            ),
            decision(
                "d-use-rust",
                "Build the engine in Rust",
                "accepted",
                "cites: [f-rust-stable, f-local-first]\n",
                "Single binary, in-process embedding.",
            ),
            decision(
                "d-embed-onnx",
                "Embed with ONNX",
                "accepted",
                "cites: [f-onnx-portable]\n",
                "Run the model in process.",
            ),
            decision(
                "d-small-model",
                "Ship a small model",
                "accepted",
                "cites: [f-model-small]\n",
                "Small enough to download once.",
            ),
            decision(
                "d-keep-legacy",
                "Keep the legacy layout",
                "accepted",
                "cites: [f-retired-old]\n",
                "Nothing moves for now.",
            ),
            decision(
                "d-old-storage",
                "Store records in one directory",
                "accepted",
                "cites: [f-retired-old]\nrelates: [d-use-rust]\nanchors: [src/store.rs]\ntags: [storage]\n",
                "All records lie in one place.",
            ),
            decision(
                "d-new-storage",
                "Store records under several roots",
                "accepted",
                "cites: [f-new-way]\nsupersedes: [d-old-storage]\n",
                "Records lie under storage roots.",
            ),
            decision(
                "d-dangling",
                "Rest on something unknown",
                "accepted",
                "cites: [f-missing]\n",
                "The premise was never written.",
            ),
            decision(
                "d-deprecated",
                "Print to standard output",
                "deprecated",
                "cites: [f-local-first]\n",
                "No longer done.",
            ),
            force(
                "f-rust-stable",
                "f-rust-stable",
                "Rust is a stable, mature systems language",
                "",
                &holds,
                "Editions keep old code compiling.",
            ),
            force("f-local-first", "f-local-first", "Tools run locally", "", &holds, "No network."),
            force(
                "f-onnx-portable",
                "f-onnx-portable",
                "ONNX runs everywhere",
                "",
                &[("holds", "2026-01-01"), ("changed", "2026-06-01")],
                "It used to.",
            ),
            force(
                "f-model-small",
                "f-model-small",
                "The model is small",
                "dependsOn: [f-onnx-portable]\n",
                &holds,
                "Under a gigabyte.",
            ),
            force(
                "f-retired-old",
                "f-retired-old",
                "Storage must be a single flat directory",
                "supersededBy: f-new-way\n",
                &[("holds", "2026-01-01"), ("retired", "2026-03-01")],
                "No longer.",
            ),
            force("f-new-way", "f-new-way", "Storage may have many roots", "", &holds, "Since then."),
            force("f-cycle-a", "f-cycle-a", "Cycle A", "dependsOn: [f-cycle-b]\n", &holds, "A."),
            force("f-cycle-b", "f-cycle-b", "Cycle B", "dependsOn: [f-cycle-a]\n", &holds, "B."),
            force("f-dup-1", "f-duplicate", "First of two", "", &holds, "One."),
            force("f-dup-2", "f-duplicate", "Second of two", "", &holds, "Two."),
            (
                "corpus/forces/malformed.md".to_string(),
                "---\nid: f-malformed\ntype: force\ntitle: [unclosed\n---\nBody\n".to_string(),
            ),
        ],
    }
}

fn new_force(title: &str, body: &str) -> ForceInput {
    ForceInput::New { title: title.to_string(), body: body.to_string(), force_new: false }
}

fn existing(id: &str) -> ForceInput {
    ForceInput::Existing { id: id.to_string() }
}

fn propose_input(title: &str, body: &str, forces: Vec<ForceInput>) -> ProposeInput {
    ProposeInput {
        title: title.to_string(),
        body: body.to_string(),
        forces,
        supersedes: vec![],
        relates: vec![],
        tags: vec![],
    }
}

fn propose<E: Embedder>(engine: &Engine<E>, input: ProposeInput) -> Proposed {
    engine.propose_decision(input, &similarity).unwrap()
}

fn graph() -> Graph {
    Graph::build(&link(fixture().parsed()))
}

fn verdicts() -> Verdicts {
    judge(&graph())
}

fn snapshot() -> Snapshot {
    fixture().build(&config(), &NullEmbedder).unwrap()
}

fn ids(hits: &[forge_core::recall::Hit]) -> Vec<String> {
    hits.iter().map(|h| h.id.clone()).collect()
}

// ---- configuration -------------------------------------------------------

#[test]
fn loads_fixture_config_with_defaults() {
    let text = fixture().text("corpus/forge.toml");
    let cfg = match Config::load(
        System::Unix,
        Ok(text),
        Some("corpus".to_string()),
        parse_toml,
        &|root: &str| root == "corpus/decisions" || root == "corpus/forces",
        "cache".to_string(),
    ) {
        Ok(c) => c,
        Err(e) => panic!("{}", e.message()),
    };
    assert_eq!(cfg.roots, vec!["corpus/decisions", "corpus/forces"]);
    assert!((wide(cfg.dedup.reuse) - 0.90).abs() < 1e-9);
    assert!((wide(cfg.dedup.warn) - 0.75).abs() < 1e-9);
    assert_eq!(cfg.embedding.model, "fake-bucket");
    assert_eq!(cfg.write_dir, "corpus/decisions");
    assert_eq!(cfg.cache_dir, "cache");
}

#[test]
fn missing_roots_is_an_error() {
    let text = "[dedup]\nreuse=0.9";
    let result = Config::from_str(System::Unix, text, parse_toml, ".", "cache".to_string());
    assert!(result.is_err());
    assert_eq!(result.err().unwrap().message(), "missing required field: roots");
}

#[test]
fn a_root_that_does_not_exist_makes_loading_fail() {
    let result = Config::load(
        System::Unix,
        Ok("roots = [\"here\", \"gone\", \"away\"]".to_string()),
        Some("dir".to_string()),
        parse_toml,
        &|root: &str| root == "dir/here",
        String::new(),
    );
    assert_eq!(result.err().unwrap().message(), "root directory does not exist: dir/gone");
}

#[test]
fn prefetch_is_a_noop_for_fake_models() {
    let cfg = config();
    assert_eq!(cfg.embedding.model, "fake-bucket");
    assert!(prefetch_model(&cfg, false).unwrap().is_none());
    assert!(default_embedder(&cfg, false).unwrap() == Choice::Bucket);
}

#[test]
fn init_scaffolds_config_and_dirs_that_load() {
    let s = scaffold::init(System::Unix, "tmp", false).unwrap();
    assert_eq!(s.config_path, "tmp/forge.toml");
    assert_eq!(s.dirs, vec!["tmp/decisions", "tmp/forces"]);
    let made = s.dirs.clone();
    let cfg = match Config::load(
        System::Unix,
        Ok(s.text),
        Some("tmp".to_string()),
        parse_toml,
        &|root: &str| made.iter().any(|d| d == root),
        String::new(),
    ) {
        Ok(c) => c,
        Err(e) => panic!("{}", e.message()),
    };
    assert_eq!(cfg.embedding.model, "intfloat/multilingual-e5-small");
    assert_eq!(cfg.roots.len(), 2);
    assert_eq!(cfg.roots, s.dirs);
    assert!((wide(cfg.dedup.reuse) - 0.90).abs() < 1e-4);
    assert!((wide(cfg.dedup.warn) - 0.75).abs() < 1e-4);
}

// ---- discovery -----------------------------------------------------------

#[test]
fn discovers_exactly_the_corpus_files() {
    let (paths, _diags) = discover(&fixture().roots(&config().roots));
    assert_eq!(paths.len(), 19);
    for p in &paths {
        assert!(p.ends_with(".md"));
    }
    let mut sorted = paths.clone();
    sorted.sort();
    assert_eq!(paths, sorted);
    assert!(paths.iter().any(|p| p.ends_with("/malformed.md")));
}

#[test]
fn non_record_markdown_is_ignored() {
    let mut disk = Disk { files: vec![] };
    disk.write("dir/README.md", "# README\n\nNo frontmatter here.\n");
    let (paths, _diags) = discover(&disk.roots(&vec!["dir".to_string()]));
    assert!(paths.is_empty(), "non-record MD files should be ignored");
}

#[test]
fn missing_root_is_a_diagnostic_not_an_error() {
    let missing = "/nonexistent/path/that/does/not/exist".to_string();
    let (paths, diags) = discover(&vec![Root { path: missing.clone(), files: None }]);
    assert!(paths.is_empty());
    assert_eq!(diags.len(), 1);
    assert!(matches!(&diags[0], Diagnostic::MissingRoot { path } if path == &missing));
}

#[test]
fn discovered_files_are_the_records_among_the_markdown() {
    let record = "---\nid: f\ntype: force\n---\n";
    let listed = |path: &str, text: Option<&str>| Listed {
        path: path.to_string(),
        text: text.map(|t| t.to_string()),
    };
    let root = Root {
        path: "r".to_string(),
        files: Some(vec![
            listed("r/b.md", Some(record)),
            listed("r/a.md", Some("\n---\ntype:  decision \n---\n")),
            listed("r/c.txt", Some(record)),
            listed("r/unreadable.md", None),
            listed("r/other.md", Some("---\ntype: note\n---\n")),
            listed("r/closed.md", Some("---\n---\ntype: force\n")),
            listed("r/.md", Some(record)),
        ]),
    };
    let (paths, diags) = discover(&vec![root]);
    assert_eq!(paths, vec!["r/a.md", "r/b.md"]);
    assert!(diags.is_empty());
}

// ---- records -------------------------------------------------------------

#[test]
fn parses_a_decision() {
    let text = fixture().text("corpus/decisions/d-use-rust.md");
    match read("decisions/d-use-rust.md", &text) {
        Parsed::Decision(d) => {
            assert_eq!(d.id, "d-use-rust");
            assert_eq!(d.status, DecisionStatus::Accepted);
            assert_eq!(d.cites, vec!["f-rust-stable", "f-local-first"]);
            assert_eq!(d.body.trim(), "Single binary, in-process embedding.");
        }
        other => panic!("expected decision, got {other:#?}"),
    }
}

#[test]
fn parses_a_force_with_status_log() {
    let text = fixture().text("corpus/forces/f-onnx-portable.md");
    match read("forces/f-onnx-portable.md", &text) {
        Parsed::Force(f) => {
            assert_eq!(f.id, "f-onnx-portable");
            assert_eq!(f.status_log.len(), 2);
            assert_eq!(f.current_status(), ForceStatus::Changed);
            assert_eq!(f.status_log[1].since, "2026-06-01");
        }
        other => panic!("expected force, got {other:#?}"),
    }
}

#[test]
fn malformed_yaml_is_a_parse_error_not_a_panic() {
    let text = fixture().text("corpus/forces/malformed.md");
    match read("forces/malformed.md", &text) {
        Parsed::Error(e) => {
            assert!(!e.message.is_empty());
        }
        other => panic!("expected parse error, got {other:#?}"),
    }
}

#[test]
fn empty_status_log_is_a_parse_error() {
    let raw = "---\nid: f-test\ntype: force\ntitle: Test\nstatus_log: []\n---\nBody\n";
    match read("test.md", raw) {
        Parsed::Error(e) => assert!(
            e.message.contains("status_log") || e.message.contains("empty"),
            "expected status_log error, got: {}",
            e.message
        ),
        other => panic!("expected error, got {other:#?}"),
    }
}

#[test]
fn illegal_status_regression_is_a_parse_error() {
    let raw = "---\nid: f-test\ntype: force\ntitle: Test\nstatus_log:\n  - { status: retired, since: 2026-01-01 }\n  - { status: holds, since: 2026-02-01 }\n---\nBody\n";
    match read("test.md", raw) {
        Parsed::Error(e) => assert!(
            e.message.contains("transition")
                || e.message.contains("illegal")
                || e.message.contains("regression")
                || e.message.contains("resurrection"),
            "expected transition error, got: {}",
            e.message
        ),
        other => panic!("expected error, got {other:#?}"),
    }
}

#[test]
fn unknown_type_is_a_parse_error() {
    let raw = "---\nid: f-test\ntype: banana\ntitle: Test\n---\nBody\n";
    match read("test.md", raw) {
        Parsed::Error(e) => assert!(
            e.message.contains("type") || e.message.contains("unknown"),
            "expected type error, got: {}",
            e.message
        ),
        _ => panic!("expected error"),
    }
}

#[test]
fn anchors_are_carried_opaquely() {
    let raw = "---\nid: d-test\ntype: decision\ntitle: Test\nstatus: accepted\ndate: 2026-01-01\nanchors:\n  - {file: src/x.rs, symbol: Foo}\n---\nBody\n";
    match read("test.md", raw) {
        Parsed::Decision(d) => {
            assert_eq!(d.anchors.len(), 1);
            let copy = d.clone();
            assert_eq!(copy.anchors, d.anchors);
        }
        other => panic!("expected decision, got {other:#?}"),
    }
}

#[test]
fn status_log_entries_not_in_date_order_is_an_error() {
    let raw = "---\nid: f-test\ntype: force\ntitle: Test\nstatus_log:\n  - { status: holds, since: 2026-02-01 }\n  - { status: holds, since: 2026-01-01 }\n---\nBody\n";
    match read("test.md", raw) {
        Parsed::Error(e) => assert!(
            e.message.contains("date") || e.message.contains("order"),
            "expected date order error, got: {}",
            e.message
        ),
        other => panic!("expected error, got {other:#?}"),
    }
}

#[test]
fn identical_consecutive_statuses_is_rejected() {
    let raw = "---\nid: f-test\ntype: force\ntitle: Test\nstatus_log:\n  - { status: holds, since: 2026-01-01 }\n  - { status: holds, since: 2026-02-01 }\n---\nBody\n";
    match read("test.md", raw) {
        Parsed::Error(e) => assert!(
            e.message.contains("consecutive") || e.message.contains("duplicate"),
            "expected consecutive status error, got: {}",
            e.message
        ),
        other => panic!("expected error, got {other:#?}"),
    }
}

fn message(text: &str) -> String {
    match read("x.md", text) {
        Parsed::Error(e) => {
            assert_eq!(e.path, "x.md");
            e.message
        }
        other => panic!("expected error, got {other:#?}"),
    }
}

#[test]
fn each_way_of_being_unreadable_has_its_message() {
    assert_eq!(message("no frontmatter"), "missing frontmatter delimiter");
    assert_eq!(message("---\nid: a\n"), "missing frontmatter delimiter");
    assert_eq!(message("---\nid: ''\ntype: force\ntitle: T\n---\n"), "id must not be empty");
    assert_eq!(message("---\nid: a\ntype: banana\ntitle: T\n---\n"), "unknown record type: banana");
    assert_eq!(
        message("---\nid: a\ntype: decision\ntitle: T\n---\n"),
        "decision requires a status field"
    );
    assert_eq!(
        message("---\nid: a\ntype: decision\ntitle: T\nstatus: accepted\n---\n"),
        "decision requires a date field"
    );
    assert_eq!(
        message("---\nid: a\ntype: decision\ntitle: T\nstatus: accepted\ndate: 2026-02-30\n---\n"),
        "invalid date format: 2026-02-30"
    );
    assert_eq!(
        message("---\nid: a\ntype: force\ntitle: T\nstatus_log: []\n---\n"),
        "status_log must not be empty"
    );
    assert_eq!(message("---\ntype: force\ntitle: T\n---\n"), "missing field `id`");
}

#[test]
fn frontmatter_may_have_carriage_returns() {
    let text = "---\r\nid: d\r\ntype: decision\r\ntitle: T\r\nstatus: accepted\r\ndate: 2024-02-29\r\n---\r\nBody\r\n";
    match read("x.md", text) {
        Parsed::Decision(d) => {
            assert_eq!(d.title, "T");
            assert_eq!(d.body, "Body\r\n");
        }
        other => panic!("expected decision, got {other:#?}"),
    }
}

#[test]
fn a_body_cannot_move_the_end_of_the_frontmatter() {
    let text = "---\nid: d\ntype: decision\ntitle: T\nstatus: accepted\ndate: 2024-02-29\n---\nbody\r\n---\nx";
    match read("x.md", text) {
        Parsed::Decision(d) => assert_eq!(d.body, "body\r\n---\nx"),
        other => panic!("expected decision, got {other:#?}"),
    }
}

// ---- linking -------------------------------------------------------------

#[test]
fn detects_id_collision() {
    let linked = link(fixture().parsed());
    let collisions: Vec<_> = linked
        .diagnostics
        .iter()
        .filter(|d| matches!(d, Diagnostic::IdCollision { .. }))
        .collect();
    assert_eq!(collisions.len(), 1);
    match &collisions[0] {
        Diagnostic::IdCollision { id, paths } => {
            assert_eq!(id, "f-duplicate");
            assert_eq!(paths.len(), 2);
        }
        _ => panic!("expected IdCollision"),
    }
}

#[test]
fn detects_dangling_refs_per_field() {
    let linked = link(fixture().parsed());
    let dangling: Vec<_> = linked
        .diagnostics
        .iter()
        .filter(|d| matches!(d, Diagnostic::DanglingRef { .. }))
        .collect();
    assert_eq!(dangling.len(), 1);
    match &dangling[0] {
        Diagnostic::DanglingRef { from, field, to } => {
            assert_eq!(from, "d-dangling");
            assert_eq!(to, "f-missing");
            assert!(matches!(field, RefField::Cites));
        }
        _ => panic!("expected DanglingRef"),
    }
}

#[test]
fn detects_depends_on_cycle() {
    let linked = link(fixture().parsed());
    let cycles: Vec<_> = linked
        .diagnostics
        .iter()
        .filter(|d| matches!(d, Diagnostic::DependsOnCycle { .. }))
        .collect();
    assert_eq!(cycles.len(), 1);
    match &cycles[0] {
        Diagnostic::DependsOnCycle { members } => {
            assert!(members.contains(&"f-cycle-a".to_string()));
            assert!(members.contains(&"f-cycle-b".to_string()));
        }
        _ => panic!("expected DependsOnCycle"),
    }
}

#[test]
fn anchors_never_produce_dangling() {
    let raw = "---\nid: d-anchor-test\ntype: decision\ntitle: Test\nstatus: accepted\ndate: 2026-01-01\nanchors:\n  - {file: nowhere.rs, symbol: Nope}\n---\nBody\n";
    let linked = link(vec![read("test.md", raw)]);
    assert!(linked.diagnostics.is_empty());
}

#[test]
fn collision_keeps_first_by_path_order_and_reports() {
    let f1 = "---\nid: f-collision\ntype: force\ntitle: First\nstatus_log:\n  - { status: holds, since: 2026-01-01 }\n---\nFirst\n";
    let f2 = "---\nid: f-collision\ntype: force\ntitle: Second\nstatus_log:\n  - { status: holds, since: 2026-01-01 }\n---\nSecond\n";
    let linked = link(vec![read("a.md", f1), read("b.md", f2)]);
    assert_eq!(linked.forces.len(), 1);
    assert_eq!(linked.forces[0].title, "First");
    assert_eq!(linked.diagnostics.len(), 1);
}

#[test]
fn every_field_can_dangle() {
    let d = "---\nid: d\ntype: decision\ntitle: T\nstatus: accepted\ndate: 2026-01-01\ncites: [a]\nsupersedes: [b]\nrelates: [c]\n---\n";
    let f = "---\nid: f\ntype: force\ntitle: T\ndependsOn: [x]\nsupersededBy: y\nstatus_log:\n  - { status: holds, since: 2026-01-01 }\n---\n";
    let linked = link(vec![read("d.md", d), read("f.md", f)]);
    let mut seen = Vec::new();
    for diag in &linked.diagnostics {
        match diag {
            Diagnostic::DanglingRef { from, field, to } => {
                seen.push(format!("{from} {field:?} {to}"));
            }
            other => panic!("unexpected {other:?}"),
        }
    }
    assert_eq!(
        seen,
        vec!["d Cites a", "d Supersedes b", "d Relates c", "f DependsOn x", "f SupersededBy y"]
    );
}

fn linked_ids(l: &Linked) -> Vec<String> {
    let mut out: Vec<String> = l.decisions.iter().map(|d| d.id.clone()).collect();
    out.extend(l.forces.iter().map(|f| f.id.clone()));
    out
}

#[test]
fn linking_keeps_each_id_once_and_every_file_counts() {
    let parsed = fixture().parsed();
    let n = parsed.len();
    let linked = link(parsed);
    let mut all = linked_ids(&linked);
    let kept = all.len();
    all.sort();
    all.dedup();
    assert_eq!(all.len(), kept);
    assert_eq!(kept, 17);
    let lost: usize = linked
        .diagnostics
        .iter()
        .map(|d| match d {
            Diagnostic::ParseError { .. } => 1,
            Diagnostic::IdCollision { paths, .. } => paths.len() - 1,
            _ => 0,
        })
        .sum();
    assert_eq!(kept + lost, n);
    assert!(linked.forces.iter().all(|f| !f.status_log.is_empty()));
}

#[test]
fn linking_ignores_the_order_of_the_files() {
    let forward = fixture().parsed();
    let mut backward = forward.clone();
    backward.reverse();
    let a = link(forward);
    let b = link(backward);
    assert_eq!(linked_ids(&a), linked_ids(&b));
    assert_eq!(format!("{:?}", a.diagnostics), format!("{:?}", b.diagnostics));
}

#[test]
fn files_that_cannot_be_read_are_reported_in_any_order() {
    let mut forward = fixture().parsed();
    forward.push(read("x/one.md", "---\nid: [\n---\n"));
    forward.push(read("x/two.md", "no frontmatter"));
    forward.push(read("x/two.md", "---\nid: a\ntype: other\ntitle: T\n---\n"));
    let mut backward = forward.clone();
    backward.reverse();
    let a = link(forward);
    let b = link(backward);
    assert_eq!(linked_ids(&a), linked_ids(&b));
    let reports = |l: &Linked| {
        let mut all: Vec<String> = l.diagnostics.iter().map(|d| format!("{d:?}")).collect();
        all.sort();
        all
    };
    assert_eq!(reports(&a), reports(&b));
    let errors = |l: &Linked| {
        l.diagnostics.iter().filter(|d| matches!(d, Diagnostic::ParseError { .. })).count()
    };
    assert_eq!(errors(&b), errors(&link(fixture().parsed())) + 3);
}

#[test]
fn a_force_that_depends_on_itself_is_a_cycle() {
    let f = "---\nid: f\ntype: force\ntitle: T\ndependsOn: [f]\nstatus_log:\n  - { status: holds, since: 2026-01-01 }\n---\n";
    let linked = link(vec![read("f.md", f)]);
    assert_eq!(linked.diagnostics.len(), 1);
    assert!(
        matches!(&linked.diagnostics[0], Diagnostic::DependsOnCycle { members } if members.len() == 1)
    );
}

// ---- the graph -----------------------------------------------------------

#[test]
fn reverse_cites_index() {
    let graph = graph();
    let cited = graph.cited_by("f-retired-old");
    assert!(cited.contains(&"d-keep-legacy".to_string()));
    assert!(cited.contains(&"d-old-storage".to_string()));
    assert_eq!(cited.len(), 2);
}

#[test]
fn depends_on_reverse_index() {
    let graph = graph();
    let dep = graph.depended_by("f-onnx-portable");
    assert_eq!(dep, vec!["f-model-small"]);
}

#[test]
fn supersession_index() {
    let graph = graph();
    let sup = graph.superseded_by("d-old-storage");
    assert_eq!(sup, vec!["d-new-storage"]);
}

#[test]
fn lookup_by_id() {
    let graph = graph();
    assert!(graph.get("d-use-rust").is_some());
    assert!(graph.get("f-missing").is_none());
    assert!(graph.cited_by("f-missing").contains(&"d-dangling".to_string()));
    assert!(graph.cited_by("nothing").is_empty());
}

#[test]
fn get_decision_returns_correct_type() {
    let graph = graph();
    match graph.get("d-use-rust") {
        Some(Record::Decision(d)) => assert_eq!(d.title, "Build the engine in Rust"),
        _ => panic!("expected decision"),
    }
}

// ---- verdicts ------------------------------------------------------------

#[test]
fn direct_citation_of_fallen_force_is_stale_distance_1() {
    let verdicts = verdicts();
    match verdicts.premise.get("d-embed-onnx").unwrap() {
        PremiseVerdict::Stale { fallen } => {
            assert_eq!(fallen.len(), 1);
            assert_eq!(fallen[0].force_id, "f-onnx-portable");
            assert_eq!(fallen[0].status, ForceStatus::Changed);
            assert_eq!(fallen[0].distance, 1);
        }
        _ => panic!("expected stale"),
    }
}

#[test]
fn reticolo_propagates_transitively_with_distance() {
    let verdicts = verdicts();
    match verdicts.premise.get("d-small-model").unwrap() {
        PremiseVerdict::Stale { fallen } => {
            assert_eq!(fallen.len(), 1);
            assert_eq!(fallen[0].force_id, "f-onnx-portable");
            assert_eq!(fallen[0].distance, 2);
        }
        _ => panic!("expected stale"),
    }
}

#[test]
fn retired_propagates_like_changed() {
    let verdicts = verdicts();
    match verdicts.premise.get("d-keep-legacy").unwrap() {
        PremiseVerdict::Stale { fallen } => {
            assert_eq!(fallen[0].force_id, "f-retired-old");
            assert_eq!(fallen[0].status, ForceStatus::Retired);
            assert_eq!(fallen[0].distance, 1);
        }
        _ => panic!("expected stale"),
    }
}

#[test]
fn fresh_when_all_premises_hold() {
    let verdicts = verdicts();
    assert!(matches!(verdicts.premise.get("d-use-rust").unwrap(), PremiseVerdict::Fresh));
    assert!(matches!(verdicts.premise.get("d-new-storage").unwrap(), PremiseVerdict::Fresh));
}

#[test]
fn dangling_cite_does_not_make_stale() {
    let verdicts = verdicts();
    assert!(matches!(verdicts.premise.get("d-dangling").unwrap(), PremiseVerdict::Fresh));
}

#[test]
fn superseded_flag_and_frontier() {
    let verdicts = verdicts();
    assert!(verdicts.superseded.contains("d-old-storage"));
    assert!(verdicts.superseded.contains("d-deprecated"));
    assert!(!verdicts.superseded.contains("d-use-rust"));
    assert_eq!(verdicts.frontier.len(), 6);
    let expected_frontier: Vec<&str> = vec![
        "d-dangling",
        "d-embed-onnx",
        "d-keep-legacy",
        "d-new-storage",
        "d-small-model",
        "d-use-rust",
    ];
    assert_eq!(verdicts.frontier, expected_frontier);
}

#[test]
fn a_decision_does_not_supersede_itself() {
    let text = "---\nid: d-1\ntype: decision\ntitle: T\nstatus: accepted\ndate: 2026-01-01\nsupersedes: [d-1]\n---\nB\n";
    let v = judge(&Graph::build(&link(vec![read("d.md", text)])));
    assert!(!v.superseded.contains("d-1"));
    assert_eq!(v.frontier, vec!["d-1"]);
}

fn cycle_corpus() -> Vec<Parsed> {
    vec![
        read(
            "a.md",
            "---\nid: f-a\ntype: force\ntitle: A\ndependsOn: [f-b]\nstatus_log:\n  - { status: holds, since: 2026-01-01 }\n---\nA\n",
        ),
        read(
            "b.md",
            "---\nid: f-b\ntype: force\ntitle: B\ndependsOn: [f-a]\nstatus_log:\n  - { status: holds, since: 2026-01-01 }\n  - { status: changed, since: 2026-06-01 }\n---\nB\n",
        ),
        read(
            "d.md",
            "---\nid: d-cycle-test\ntype: decision\ntitle: Test\nstatus: accepted\ndate: 2026-01-01\ncites: [f-a]\n---\nTest\n",
        ),
    ]
}

#[test]
fn cycle_with_fallen_member_terminates_and_propagates() {
    let verdicts = judge(&Graph::build(&link(cycle_corpus())));
    match verdicts.premise.get("d-cycle-test").unwrap() {
        PremiseVerdict::Stale { fallen } => {
            assert_eq!(fallen[0].force_id, "f-b");
            assert_eq!(fallen[0].distance, 2);
        }
        _ => panic!("expected stale"),
    }
}

#[test]
fn multiple_fallen_premises_all_reported_at_min_distance() {
    let parsed = vec![
        read(
            "fx.md",
            "---\nid: f-x\ntype: force\ntitle: X\ndependsOn: [f-z]\nstatus_log:\n  - { status: holds, since: 2026-01-01 }\n---\nX\n",
        ),
        read(
            "fy.md",
            "---\nid: f-y\ntype: force\ntitle: Y\ndependsOn: [f-z]\nstatus_log:\n  - { status: holds, since: 2026-01-01 }\n---\nY\n",
        ),
        read(
            "fz.md",
            "---\nid: f-z\ntype: force\ntitle: Z\nstatus_log:\n  - { status: changed, since: 2026-06-01 }\n---\nZ\n",
        ),
        read(
            "d.md",
            "---\nid: d-multi\ntype: decision\ntitle: Test\nstatus: accepted\ndate: 2026-01-01\ncites: [f-x, f-y]\n---\nTest\n",
        ),
    ];
    let verdicts = judge(&Graph::build(&link(parsed)));
    match verdicts.premise.get("d-multi").unwrap() {
        PremiseVerdict::Stale { fallen } => {
            assert_eq!(fallen.len(), 1);
            assert_eq!(fallen[0].force_id, "f-z");
        }
        _ => panic!("expected stale"),
    }
}

#[test]
fn order_independent() {
    let parsed_normal = fixture().parsed();
    let mut parsed_rev = parsed_normal.clone();
    parsed_rev.reverse();

    let g1 = Graph::build(&link(parsed_normal));
    let v1 = judge(&g1);
    let v2 = judge(&Graph::build(&link(parsed_rev)));

    assert_eq!(v1.frontier, v2.frontier);
    for d in g1.decisions() {
        let v = v1.premise.get(&d.id).unwrap();
        let v2_val = v2.premise.get(&d.id).unwrap();
        assert_eq!(std::mem::discriminant(v), std::mem::discriminant(v2_val));
    }
}

#[test]
fn distances_are_the_least_numbers_of_steps() {
    let g = Graph::build(&link(cycle_corpus()));
    let far = distances(&g, "f-b");
    assert_eq!(far.get("f-b"), Some(&0));
    assert_eq!(far.get("f-a"), Some(&1));
    assert_eq!(far.get("d-cycle-test"), Some(&2));
    assert_eq!(far.get("elsewhere"), None);
}

#[test]
fn fallen_premises_come_by_severity_then_distance_then_id() {
    let log = |s: &str| format!("status_log:\n  - {{ status: {s}, since: 2026-01-01 }}\n");
    let f = |id: &str, deps: &str, s: &str| {
        read(
            &format!("{id}.md"),
            &format!("---\nid: {id}\ntype: force\ntitle: T\ndependsOn: [{deps}]\n{}---\n", log(s)),
        )
    };
    let d = read(
        "d.md",
        "---\nid: d\ntype: decision\ntitle: T\nstatus: accepted\ndate: 2026-01-01\ncites: [f-b, f-a, f-near]\n---\n",
    );
    let parsed = vec![
        d,
        f("f-b", "", "changed"),
        f("f-a", "", "changed"),
        f("f-near", "f-far", "holds"),
        f("f-far", "", "retired"),
    ];
    let v = judge(&Graph::build(&link(parsed)));
    match v.premise.get("d").unwrap() {
        PremiseVerdict::Stale { fallen } => {
            let seen: Vec<(&str, u32)> =
                fallen.iter().map(|p| (p.force_id.as_str(), p.distance)).collect();
            assert_eq!(seen, vec![("f-far", 2), ("f-a", 1), ("f-b", 1)]);
        }
        _ => panic!("expected stale"),
    }
}

#[test]
fn what_was_stale_stays_stale_where_more_forces_fall() {
    let before = verdicts();
    let mut disk = fixture();
    let path = "corpus/forces/f-local-first.md";
    let text = disk.text(path).replace(
        "status_log:\n  - { status: holds, since: 2026-01-01 }\n",
        "status_log:\n  - { status: holds, since: 2026-01-01 }\n  - { status: retired, since: 2026-07-01 }\n",
    );
    disk.write(path, &text);
    let g = Graph::build(&link(disk.parsed()));
    let after = judge(&g);
    for d in g.decisions() {
        if matches!(before.premise.get(&d.id).unwrap(), PremiseVerdict::Stale { .. }) {
            assert!(matches!(after.premise.get(&d.id).unwrap(), PremiseVerdict::Stale { .. }));
        }
    }
    assert!(matches!(after.premise.get("d-use-rust").unwrap(), PremiseVerdict::Stale { .. }));
}

// ---- snapshots and reports -----------------------------------------------

#[test]
fn builds_snapshot_from_fixture_corpus() {
    let snap = snapshot();
    assert_eq!(snap.diagnostics.len(), 4);
    assert_eq!(snap.frontier().len(), 6);
    let report = snap.stale_report();
    let ids: Vec<&str> = report.iter().map(|e| e.decision_id.as_str()).collect();
    assert_eq!(ids, vec!["d-keep-legacy", "d-embed-onnx", "d-small-model"]);
    assert_eq!(snap.model_id, "null");
    assert!(snap.built_at > 1_700_000_000_000);
}

#[test]
fn stale_report_orders_by_status_then_distance_then_recency() {
    let snap = snapshot();
    let report = snap.stale_report();
    assert_eq!(report[0].decision_id, "d-keep-legacy");
    assert_eq!(report[1].decision_id, "d-embed-onnx");
    assert_eq!(report[2].decision_id, "d-small-model");
}

#[test]
fn of_two_equal_falls_the_later_comes_first() {
    let f = |id: &str, since: &str| {
        format!("---\nid: {id}\ntype: force\ntitle: T\nstatus_log:\n  - {{ status: changed, since: {since} }}\n---\n")
    };
    let d = |id: &str, cites: &str| {
        format!("---\nid: {id}\ntype: decision\ntitle: T\nstatus: accepted\ndate: 2026-01-01\ncites: [{cites}]\n---\n")
    };
    let mut disk = Disk { files: vec![] };
    disk.write("corpus/forces/a.md", &f("f-a", "2026-01-01"));
    disk.write("corpus/forces/b.md", &f("f-b", "2026-05-01"));
    disk.write("corpus/decisions/a.md", &d("d-a", "f-a"));
    disk.write("corpus/decisions/b.md", &d("d-b", "f-b"));
    let snap = disk.build(&config(), &NullEmbedder).unwrap();
    let report = snap.stale_report();
    let seen: Vec<&str> = report.iter().map(|e| e.since.as_str()).collect();
    assert_eq!(seen, vec!["2026-05-01", "2026-01-01"]);
}

#[test]
fn why_walks_cites_then_depends_on() {
    let snap = snapshot();
    let chain = snap.why("d-small-model").unwrap();
    assert!(!chain.is_empty());
    let ids: Vec<&str> = chain.iter().map(|e| e.force_id.as_str()).collect();
    assert!(ids.contains(&"f-model-small"));
    assert!(ids.contains(&"f-onnx-portable"));
}

#[test]
fn why_reaches_every_fallen_force() {
    let snap = snapshot();
    for d in snap.graph.decisions() {
        let chain = snap.why(&d.id).unwrap();
        if let PremiseVerdict::Stale { fallen } = snap.verdicts.premise.get(&d.id).unwrap() {
            for f in fallen {
                assert!(chain.iter().any(|e| e.force_id == f.force_id), "{} {}", d.id, f.force_id);
            }
        }
    }
    assert!(snap.why("nothing").is_none());
}

#[test]
fn partial_graph_still_answers() {
    let snap = snapshot();
    assert!(snap.graph.get("d-use-rust").is_some());
    assert!(snap.graph.get("d-embed-onnx").is_some());
    let decisions = snap.graph.decisions();
    assert_eq!(decisions.len(), 8);
}

#[test]
fn a_record_has_a_title() {
    let snap = snapshot();
    assert_eq!(snap.get_title("d-use-rust"), "Build the engine in Rust");
    assert_eq!(snap.get_title("f-local-first"), "Tools run locally");
    assert_eq!(snap.get_title("nothing"), "");
}

#[test]
fn force_body_and_tags_are_searchable() {
    let mut disk = Disk { files: vec![] };
    disk.write(
        "corpus/forces/f-alpha.md",
        "---\nid: f-alpha\ntype: force\ntitle: Generic capability\nstatus_log:\n  - { status: holds, since: 2026-01-01 }\ntags: [distincttagword]\n---\nAlpha body mentions distinctbodyword prominently.\n",
    );
    disk.write(
        "corpus/forces/f-beta.md",
        "---\nid: f-beta\ntype: force\ntitle: Generic capability\nstatus_log:\n  - { status: holds, since: 2026-01-01 }\n---\nBeta body is entirely unrelated.\n",
    );
    let mut raw = raw_config();
    raw.roots = Some(vec!["forces".to_string()]);
    let cfg = match Config::from_fields(System::Unix, raw, "corpus", "cache".to_string()) {
        Ok(c) => c,
        Err(e) => panic!("{}", e.message()),
    };
    let embedder = bucket();
    let snap = disk.build(&cfg, &embedder).unwrap();

    let body_hits =
        search(&snap, &embedder, "distinctbodyword", Scope::Force, 5, &similarity).unwrap();
    assert_eq!(
        body_hits.first().map(|h| h.id.as_str()),
        Some("f-alpha"),
        "body term should surface f-alpha: {body_hits:?}"
    );

    let tag_hits =
        search(&snap, &embedder, "distincttagword", Scope::Force, 5, &similarity).unwrap();
    assert_eq!(
        tag_hits.first().map(|h| h.id.as_str()),
        Some("f-alpha"),
        "tag term should surface f-alpha: {tag_hits:?}"
    );
}

#[test]
fn a_failing_embedder_fails_the_build() {
    let built = fixture().build(&config(), &Broken("broken"));
    match built {
        Err(e) => assert_eq!(e.0, "embedding failed: no model"),
        Ok(_) => panic!("expected an error"),
    }
}

#[test]
fn cached_vectors_are_not_computed_again() {
    let cfg = config();
    let disk = fixture();
    let (files, found) = disk.sources(&cfg.roots);
    let mut cache = VectorCache::new(cfg.cache_dir.clone(), "fake-bucket", None);
    let first = Snapshot::build(&files, found.clone(), &decode, &bucket(), &mut cache).unwrap();
    let same = Broken("fake-bucket");
    let again = Snapshot::build(&files, found.clone(), &decode, &same, &mut cache).unwrap();
    for f in again.graph.forces() {
        let a = first.vectors.get(&f.id).unwrap();
        let b = again.vectors.get(&f.id).unwrap();
        assert_eq!(floats(a), floats(b));
    }
    assert_eq!(cache.entries().len(), 17);

    let other = Broken("another");
    assert!(
        Snapshot::build(&files, found, &decode, &other, &mut cache).is_err(),
        "another model does not get these vectors"
    );
    assert_eq!(cache.model_id(), "another");
    assert!(cache.entries().is_empty());
}

#[test]
fn phase1_checkpoint_matches_oracle() {
    let snap = snapshot();

    assert_eq!(snap.diagnostics.len(), 4, "expected exactly 4 diagnostics");

    let has_parse_error = snap.diagnostics.iter().any(|d| {
        matches!(d, Diagnostic::ParseError { path, .. } if path.ends_with("/malformed.md"))
    });
    assert!(has_parse_error, "missing parse error for malformed.md");

    let has_collision = snap.diagnostics.iter().any(|d| {
        matches!(d, Diagnostic::IdCollision { id, paths } if id == "f-duplicate" && paths.len() == 2)
    });
    assert!(has_collision, "missing id collision for f-duplicate");

    let has_dangling = snap.diagnostics.iter().any(|d| {
        matches!(d, Diagnostic::DanglingRef { from, field: _, to } if from == "d-dangling" && to == "f-missing")
    });
    assert!(has_dangling, "missing dangling ref d-dangling -> f-missing");

    let has_cycle = snap.diagnostics.iter().any(|d| {
        matches!(d, Diagnostic::DependsOnCycle { members } if members.contains(&"f-cycle-a".to_string()) && members.contains(&"f-cycle-b".to_string()))
    });
    assert!(has_cycle, "missing depends-on cycle");

    match snap.verdicts.premise.get("d-embed-onnx").unwrap() {
        PremiseVerdict::Stale { fallen } => {
            assert_eq!(fallen.len(), 1);
            assert_eq!(fallen[0].force_id, "f-onnx-portable");
            assert_eq!(fallen[0].distance, 1);
        }
        _ => panic!("d-embed-onnx should be stale"),
    }

    match snap.verdicts.premise.get("d-small-model").unwrap() {
        PremiseVerdict::Stale { fallen } => {
            assert_eq!(fallen.len(), 1);
            assert_eq!(fallen[0].force_id, "f-onnx-portable");
            assert_eq!(fallen[0].distance, 2);
        }
        _ => panic!("d-small-model should be stale"),
    }

    match snap.verdicts.premise.get("d-keep-legacy").unwrap() {
        PremiseVerdict::Stale { fallen } => {
            assert_eq!(fallen.len(), 1);
            assert_eq!(fallen[0].force_id, "f-retired-old");
            assert_eq!(fallen[0].distance, 1);
        }
        _ => panic!("d-keep-legacy should be stale"),
    }

    let v_old = snap.verdicts.premise.get("d-old-storage").unwrap();
    assert!(
        matches!(v_old, PremiseVerdict::Stale { .. }),
        "d-old-storage should be premise-stale"
    );
    assert!(snap.verdicts.superseded.contains("d-old-storage"));

    for fresh_id in ["d-use-rust", "d-new-storage", "d-dangling", "d-deprecated"] {
        let v = snap.verdicts.premise.get(fresh_id).unwrap();
        assert!(matches!(v, PremiseVerdict::Fresh), "{} should be fresh", fresh_id);
    }

    assert!(snap.verdicts.superseded.contains("d-old-storage"));
    assert!(snap.verdicts.superseded.contains("d-deprecated"));
    assert!(!snap.verdicts.superseded.contains("d-use-rust"));

    assert_eq!(snap.frontier().len(), 6);
    let expected: Vec<&str> = vec![
        "d-dangling",
        "d-embed-onnx",
        "d-keep-legacy",
        "d-new-storage",
        "d-small-model",
        "d-use-rust",
    ];
    assert_eq!(snap.frontier(), expected.as_slice());

    let report = snap.stale_report();
    let stale_ids: Vec<&str> = report.iter().map(|e| e.decision_id.as_str()).collect();
    assert_eq!(stale_ids, vec!["d-keep-legacy", "d-embed-onnx", "d-small-model"]);

    let why_chain = snap.why("d-small-model").unwrap();
    let why_ids: Vec<&str> = why_chain.iter().map(|e| e.force_id.as_str()).collect();
    assert!(why_ids.contains(&"f-model-small"));
    assert!(why_ids.contains(&"f-onnx-portable"));
}

// ---- recall --------------------------------------------------------------

#[test]
fn search_ranks_over_frontier_only() {
    let embedder = bucket();
    let snap = fixture().build(&config(), &embedder).unwrap();

    let results =
        search(&snap, &embedder, "storage directory roots", Scope::Both, 10, &similarity).unwrap();
    assert!(!results.is_empty());
    let ids = ids(&results);

    assert!(!ids.contains(&"d-old-storage".to_string()));
    assert!(!ids.contains(&"d-deprecated".to_string()));
    assert!(!ids.iter().any(|id| id == "f-retired-old"));
}

#[test]
fn search_rust_token_top_2_contains_expected() {
    let embedder = bucket();
    let snap = fixture().build(&config(), &embedder).unwrap();

    let results = search(&snap, &embedder, "rust", Scope::Both, 10, &similarity).unwrap();
    let ids = ids(&results);
    assert!(
        ids.contains(&"d-use-rust".to_string()),
        "d-use-rust should be in search results for 'rust'"
    );
    assert!(
        ids.contains(&"f-rust-stable".to_string()),
        "f-rust-stable should be in search results for 'rust'"
    );
}

#[test]
fn near_matches_include_retired_forces() {
    let embedder = bucket();
    let snap = fixture().build(&config(), &embedder).unwrap();

    let results = near_matches(
        &snap,
        &embedder,
        "Storage must be a single flat directory",
        double(0.5),
        &similarity,
    )
    .unwrap();
    let hit = results.iter().find(|h| h.id == "f-retired-old");
    assert!(hit.is_some());
    let hit = hit.unwrap();
    assert_eq!(hit.status, "retired");
    assert_eq!(hit.superseded_by.as_deref(), Some("f-new-way"));
}

#[test]
fn near_matches_apply_warn_threshold() {
    let embedder = bucket();
    let snap = fixture().build(&config(), &embedder).unwrap();

    let results = near_matches(
        &snap,
        &embedder,
        "completely unrelated text xyz",
        double(f64::from(0.99f32)),
        &similarity,
    )
    .unwrap();
    assert!(results.is_empty() || results.iter().all(|h| float(h.score) >= 0.99));
}

#[test]
fn ranking_is_by_score_within_the_scope_and_the_limit() {
    let snap = fixture().build(&config(), &bucket()).unwrap();
    let n = snap.graph.decisions().len() + snap.graph.forces().len();
    let scores: Vec<Single> = (0..n).map(|i| single(i as f32)).collect();
    let both = rank(&snap, Scope::Both, 3, &scores);
    assert_eq!(both.len(), 3);
    assert!(float(both[0].score) > float(both[1].score));
    assert!(float(both[1].score) > float(both[2].score));
    let five = rank(&snap, Scope::Both, 5, &scores);
    assert_eq!(ids(&five)[..3], ids(&both)[..]);
    let decisions = rank(&snap, Scope::Decision, 100, &scores);
    assert_eq!(decisions.len(), 6);
    assert!(decisions.iter().all(|h| h.kind == "decision"));
    let forces = rank(&snap, Scope::Force, 100, &scores);
    assert!(forces.iter().all(|h| h.kind == "force" && h.status != "retired"));
    let all = rank(&snap, Scope::Both, 0, &scores);
    assert_eq!(all.len(), decisions.len() + forces.len());
    assert!(rank(&snapshot(), Scope::Both, 0, &scores).is_empty(), "empty vectors are passed over");
}

#[test]
fn near_matches_are_those_at_or_above_the_threshold() {
    let snap = fixture().build(&config(), &bucket()).unwrap();
    let n = snap.graph.forces().len();
    let scores: Vec<Single> = (0..n).map(|i| single(i as f32 / 10.0)).collect();
    let hits = pick_near(&snap, double(0.5), &scores);
    assert_eq!(hits.len(), n - 5);
    assert!(hits.iter().all(|h| float(h.score) >= 0.5));
    let nan: Vec<Single> = (0..n).map(|_| single(f32::NAN)).collect();
    assert!(pick_near(&snap, double(0.5), &nan).is_empty());
}

#[test]
fn a_failing_embedder_fails_the_search() {
    let snap = snapshot();
    let r = search(&snap, &Broken("broken"), "rust", Scope::Both, 10, &similarity);
    assert_eq!(r.err().unwrap().message(), "no model");
}

#[test]
fn bucket_embedder_is_deterministic() {
    let e = bucket();
    let v1 = e.embed_query("rust is fast").unwrap();
    let v2 = e.embed_query("rust is fast").unwrap();
    assert_eq!(v1.len(), 256);
    assert_eq!(floats(&v1), floats(&v2));
}

#[test]
fn bucket_similarity_tracks_token_overlap() {
    let e = bucket();
    let a = floats(&e.embed_query("rust is fast and safe").unwrap());
    let b = floats(&e.embed_query("rust is fast").unwrap());
    let c = floats(&e.embed_query("yaml parsing rules").unwrap());
    let sim_ab = cosine(&a, &b);
    let sim_ac = cosine(&a, &c);
    assert!(sim_ab > sim_ac, "similar texts should have higher cosine similarity");
}

#[test]
fn pinned_embedder_returns_exact_vectors() {
    let mut e = PinnedEmbedder::new(bucket());
    e.pin("a", vector(&[1.0, 0.0, 0.0]));
    e.pin("b", vector(&[0.96, 0.28, 0.0]));
    let va = floats(&e.embed_query("a").unwrap());
    let vb = floats(&e.embed_query("b").unwrap());
    assert_eq!(va, vec![1.0, 0.0, 0.0]);
    assert!((cosine(&va, &vb) - 0.96).abs() < 1e-6);
    assert_eq!(e.model_id(), "fake-pinned");
}

#[test]
fn pinned_embedder_falls_back_to_bucket_for_unknown() {
    let mut e = PinnedEmbedder::new(bucket());
    e.pin("known", vector(&[1.0, 0.0]));
    let v1 = floats(&e.embed_query("known").unwrap());
    let v2 = floats(&e.embed_query("unknown text").unwrap());
    assert_ne!(v1, v2);
    assert!(!v2.is_empty());
}

// ---- proposing -----------------------------------------------------------

#[test]
fn propose_composes_records_without_touching_disk() {
    let engine = fixture().engine(bucket());

    let p = propose(
        &engine,
        propose_input(
            "Adopt sqlite for the cache",
            "Sqlite is a proven embedded database.",
            vec![
                new_force("SQLite is zero-config", "No server setup needed."),
                existing("f-rust-stable"),
            ],
        ),
    );

    assert!(p.decision.id.starts_with("d-adopt-sqlite-for-the-cache"));
    assert_eq!(p.decision.status, DecisionStatus::Accepted);
    assert_eq!(p.decision.date, today_iso());
    assert_eq!(p.new_forces.len(), 1);
    assert!(p.new_forces[0].id.starts_with("f-sqlite-is-zero-config"));
    assert!(p.decision.cites.contains(&"f-rust-stable".to_string()));
}

#[test]
fn propose_reports_validation_problems_as_data() {
    let engine = fixture().engine(bucket());
    let p = propose(&engine, propose_input("Test", "body", vec![existing("f-nope")]));
    assert!(!p.problems.is_empty());
    assert!(p.problems.iter().any(|msg| msg.contains("f-nope")));
    assert_eq!(p.problems, vec!["unknown force id f-nope"]);
    assert!(p.decision.cites.is_empty());
}

#[test]
fn propose_attaches_near_matches_per_new_force() {
    let mut embedder = PinnedEmbedder::new(bucket());
    embedder.pin("SQLite is zero-config", vector(&[0.577, 0.577, 0.577]));
    embedder.pin("Rust is a stable, mature systems language", vector(&[0.55, 0.55, 0.55]));

    let engine = fixture().engine(embedder);
    let p = propose(
        &engine,
        propose_input("Test", "body", vec![new_force("SQLite is zero-config", "...")]),
    );
    assert!(!p.near_matches.is_empty());
    assert_eq!(p.near_matches[0].force_id, "f-sqlite-is-zero-config");
}

#[test]
fn id_generation_slugifies_and_disambiguates() {
    let engine = fixture().engine(bucket());

    let id = engine.generate_id("d", "Hello, World! 2026");
    assert!(id.starts_with("d-hello-world-2026"));
    assert!(!id.contains(' '));
    assert!(!id.contains(','));

    let long_title = "a".repeat(60);
    let id = engine.generate_id("d", &long_title);
    assert!(id.len() <= 50);

    let id2 = engine.generate_id("d", "Use, Rust!");
    assert!(id2.starts_with("d-use-rust"));
    assert_ne!(id, id2);
    assert!(id2.ends_with("-2"));
}

#[test]
fn a_slug_is_cut_between_characters() {
    let engine = fixture().engine(bucket());
    let title = "a".repeat(47) + "è";
    assert_eq!(engine.generate_id("d", &title), format!("d-{}", "a".repeat(47)));
    assert_eq!(engine.generate_id("d", &"é".repeat(30)), format!("d-{}", "é".repeat(24)));
    let p = propose(&engine, propose_input(&title, "", vec![new_force(&title, "")]));
    assert_eq!(p.new_forces[0].id, format!("f-{}", "a".repeat(47)));
    let c = engine.commit(p, &similarity).unwrap();
    assert_eq!(c.receipt.decision_id, format!("d-{}", "a".repeat(47)));
}

#[test]
fn propose_is_repeatable() {
    let engine = fixture().engine(bucket());
    let input =
        propose_input("Test repeatable propose", "body", vec![new_force("A new force", "...")]);
    let p1 = propose(&engine, input.clone());
    let p2 = propose(&engine, input);
    assert_eq!(p1.decision.id, p2.decision.id);
    assert_eq!(p1.decision.title, p2.decision.title);
    assert_eq!(format!("{p1:?}"), format!("{p2:?}"));
}

#[test]
fn a_proposal_survives_a_failing_embedder() {
    let engine = fixture().engine(Fickle { left: Cell::new(1) });
    let p = propose(&engine, propose_input("T", "", vec![new_force("A force", "")]));
    assert_eq!(p.near_matches.len(), 1);
    assert!(p.near_matches[0].hits.is_empty());
}

#[test]
fn a_failed_build_leaves_the_engine_as_it_is() {
    let mut disk = fixture();
    let mut engine = disk.engine(Fickle { left: Cell::new(1) });
    assert_eq!(engine.snapshot().graph.decisions().len(), 8);
    disk.write(
        "corpus/decisions/d-more.md",
        "---\nid: d-more\ntype: decision\ntitle: T\nstatus: accepted\ndate: 2026-01-01\n---\nB\n",
    );
    let failed = disk.try_reload(&mut engine);
    assert_eq!(failed, Err("build error: embedding failed: no more".to_string()));
    assert_eq!(engine.snapshot().graph.decisions().len(), 8);
    engine.embedder().left.set(1);
    disk.reload(&mut engine);
    assert_eq!(engine.snapshot().graph.decisions().len(), 9);

    let none = disk.try_engine(Fickle { left: Cell::new(0) });
    assert_eq!(none.err(), Some("build error: embedding failed: no more".to_string()));
}

#[test]
fn an_engine_has_vectors_of_its_own_model_only() {
    let disk = fixture();
    let cfg = config();
    let (files, found) = disk.sources(&cfg.roots);
    let mut cache = VectorCache::new(cfg.cache_dir.clone(), "fake-bucket", None);
    let first = Snapshot::build(&files, found.clone(), &decode, &bucket(), &mut cache).unwrap();
    assert_eq!(first.model_id, "fake-bucket");
    let fickle = Fickle { left: Cell::new(1) };
    let mut engine = match Engine::new(cfg, fickle, &files, found.clone(), &decode, &mut cache) {
        Ok(e) => e,
        Err(m) => panic!("{m}"),
    };
    assert_eq!(engine.snapshot().model_id, "fickle");
    assert_eq!(cache.model_id(), "fickle");
    assert!(engine.rebuild(&files, found, &decode, &mut cache).is_ok(), "all vectors are cached");
    let id = "f-rust-stable".to_string();
    assert_eq!(floats(engine.snapshot().vectors.get(&id).unwrap()), vec![1.0]);
}

// ---- committing ----------------------------------------------------------

fn set_status(
    disk: &mut Disk,
    engine: &mut Engine<Bucket>,
    id: &str,
    word: &str,
) -> Result<StatusReceipt, String> {
    let file = engine.set_status(id, word, "")?;
    disk.write(&file.path, &file.text);
    let (files, found) = disk.sources(&engine.config().roots);
    let dir = engine.config().cache_dir.clone();
    let mut cache = VectorCache::new(dir, &engine.embedder().model_id(), None);
    engine.status_written(id, &files, found, &decode, &mut cache)
}

#[test]
fn phase3_checkpoint_scripted_e2e() {
    let mut disk = fixture();
    let pre = disk.clone();
    let mut engine = disk.engine(bucket());

    let p1 = propose(
        &engine,
        propose_input(
            "E2E test decision one",
            "First checkpoint decision.",
            vec![new_force("A fresh checkpoint force", "..."), existing("f-new-way")],
        ),
    );
    assert!(p1.problems.is_empty());
    let c1 = engine.commit(p1, &similarity).unwrap();
    disk.commit(&c1);
    disk.reload(&mut engine);
    let r1 = c1.receipt;
    assert!(!r1.created_force_ids.is_empty());
    assert_eq!(r1.reused.len(), 0);

    let p2 = propose(
        &engine,
        propose_input(
            "E2E test decision two",
            "Second checkpoint decision.",
            vec![new_force("A fresh checkpoint force", "...")],
        ),
    );
    let c2 = engine.commit(p2, &similarity).unwrap();
    disk.commit(&c2);
    disk.reload(&mut engine);
    let r2 = c2.receipt;
    assert!(!r2.reused.is_empty(), "second commit should reuse near-duplicate force");

    let new_force_id = r1.created_force_ids[0].clone();
    let receipt = set_status(&mut disk, &mut engine, &new_force_id, "changed").unwrap();
    assert_eq!(receipt.id, new_force_id);
    assert!(receipt.newly_stale.iter().any(|id| id == &r1.decision_id));
    assert!(receipt.newly_stale.iter().any(|id| id == &r2.decision_id));

    let report = engine.snapshot().stale_report();
    assert!(report.iter().any(|e| e.decision_id == r1.decision_id));
    assert!(report.iter().any(|e| e.decision_id == r2.decision_id));

    for (path, text) in &pre.files {
        assert_eq!(&disk.text(path), text, "file {} was modified", path);
    }
}

#[test]
fn a_commit_honours_an_edited_date_and_nothing_else() {
    let mut disk = fixture();
    let mut engine = disk.engine(bucket());
    let mut p = propose(&engine, propose_input("Backfilled", "Old.", vec![existing("f-new-way")]));
    p.decision.date = "2020-02-29".to_string();
    p.decision.title = "Forged".to_string();
    p.decision.cites = vec![];
    let c = engine.commit(p, &similarity).unwrap();
    disk.commit(&c);
    disk.reload(&mut engine);
    match engine.snapshot().graph.get(&c.receipt.decision_id) {
        Some(Record::Decision(d)) => {
            assert_eq!(d.date, "2020-02-29");
            assert_eq!(d.title, "Backfilled");
            assert_eq!(d.cites, vec!["f-new-way"]);
            assert_eq!(d.path, "corpus/decisions/d-backfilled.md");
        }
        _ => panic!("expected decision"),
    }
}

#[test]
fn a_commit_refuses_unknown_forces_and_wrong_dates() {
    let engine = fixture().engine(bucket());
    let p = propose(
        &engine,
        propose_input("T", "", vec![existing("f-no"), existing("f-nope")]),
    );
    let refused = engine.commit(p, &similarity).err().unwrap();
    assert_eq!(refused, "unknown force id f-no; unknown force id f-nope");

    let mut p = propose(&engine, propose_input("T", "", vec![]));
    p.decision.date = "yesterday".to_string();
    assert_eq!(
        engine.commit(p, &similarity).err().unwrap(),
        "invalid date format: yesterday"
    );
}

#[test]
fn a_force_that_is_said_to_be_new_is_made_with_a_warning() {
    let mut disk = fixture();
    let mut engine = disk.engine(bucket());
    let title = "A fresh checkpoint force";
    let p = propose(&engine, propose_input("One", "", vec![new_force(title, "")]));
    let c = engine.commit(p, &similarity).unwrap();
    disk.commit(&c);
    disk.reload(&mut engine);
    let again = ForceInput::New { title: title.to_string(), body: String::new(), force_new: true };
    let p = propose(&engine, propose_input("Two", "", vec![again]));
    let c = engine.commit(p, &similarity).unwrap();
    assert_eq!(c.receipt.created_force_ids, vec!["f-a-fresh-checkpoint-force-2"]);
    assert!(c.receipt.reused.is_empty());
    assert_eq!(c.receipt.warnings.len(), 1);
    assert_eq!(c.receipt.warnings[0].hits[0].id, "f-a-fresh-checkpoint-force");
}

#[test]
fn two_new_forces_of_one_commit_get_two_ids() {
    let mut disk = fixture();
    let engine = disk.engine(bucket());
    let p = propose(
        &engine,
        propose_input("T", "", vec![new_force("Same title", "a"), new_force("Same title", "b")]),
    );
    let c = engine.commit(p, &similarity).unwrap();
    assert_eq!(c.receipt.created_force_ids, vec!["f-same-title", "f-same-title-2"]);
    assert_eq!(c.files.len(), 3);
    disk.commit(&c);
}

#[test]
fn any_body_that_is_committed_is_read_back() {
    let mut disk = fixture();
    let mut engine = disk.engine(bucket());
    for (i, body) in ["a\r\n---\nb", "\n---\n", "---", "\r\n", ""].iter().enumerate() {
        let p = propose(
            &engine,
            propose_input(&format!("Body {i}"), body, vec![new_force(&format!("{i}{i}"), body)]),
        );
        let c = engine.commit(p, &similarity).unwrap();
        disk.commit(&c);
        disk.reload(&mut engine);
        match engine.snapshot().graph.get(&c.receipt.decision_id) {
            Some(Record::Decision(d)) => assert_eq!(&d.body, body),
            _ => panic!("expected decision"),
        }
        match engine.snapshot().graph.get(&c.receipt.created_force_ids[0]) {
            Some(Record::Force(f)) => assert_eq!(&f.body, body),
            _ => panic!("expected force"),
        }
        let r = set_status(&mut disk, &mut engine, &c.receipt.created_force_ids[0], "retired");
        assert_eq!(r.unwrap().newly_stale, vec![c.receipt.decision_id]);
    }
}

#[test]
fn a_commit_leaves_every_other_record_as_it_was() {
    let mut disk = fixture();
    let mut engine = disk.engine(bucket());
    let before = disk.build(&config(), &NullEmbedder).unwrap();
    let p = propose(
        &engine,
        propose_input("A first of all", "Body.", vec![new_force("A new one", "New.")]),
    );
    let c = engine.commit(p, &similarity).unwrap();
    disk.commit(&c);
    disk.reload(&mut engine);
    let after = &engine.snapshot().graph;
    for d in before.graph.decisions() {
        match after.get(&d.id) {
            Some(Record::Decision(e)) => assert_eq!(format!("{d:?}"), format!("{e:?}")),
            _ => panic!("{} is gone", d.id),
        }
    }
    for f in before.graph.forces() {
        match after.get(&f.id) {
            Some(Record::Force(g)) => assert_eq!(format!("{f:?}"), format!("{g:?}")),
            _ => panic!("{} is gone", f.id),
        }
    }
    match after.get(&c.receipt.created_force_ids[0]) {
        Some(Record::Force(f)) => {
            assert_eq!(f.title, "A new one");
            assert_eq!(f.body, "New.");
            assert_eq!(f.path, "corpus/decisions/f-a-new-one.md");
            assert_eq!(f.status_log[0].since, today_iso());
        }
        _ => panic!("expected force"),
    }
}

#[test]
fn a_status_only_goes_forward() {
    let mut disk = fixture();
    let mut engine = disk.engine(bucket());
    let r = set_status(&mut disk, &mut engine, "f-rust-stable", "changed").unwrap();
    assert_eq!(r.newly_stale, vec!["d-use-rust"]);
    match engine.snapshot().graph.get("f-rust-stable") {
        Some(Record::Force(f)) => {
            assert_eq!(f.status_log.len(), 2);
            assert_eq!(f.current_status(), ForceStatus::Changed);
            assert_eq!(f.body, "Editions keep old code compiling.\n");
        }
        _ => panic!("expected force"),
    }
    let back = set_status(&mut disk, &mut engine, "f-rust-stable", "holds");
    assert!(back.err().unwrap().contains("illegal status transition"));
    let r = set_status(&mut disk, &mut engine, "f-rust-stable", "retired").unwrap();
    assert!(r.newly_stale.is_empty());
}

#[test]
fn setting_a_status_says_why_it_cannot() {
    let engine = fixture().engine(bucket());
    let refused = |id: &str, word: &str| engine.set_status(id, word, "").err().unwrap();
    assert_eq!(refused("nothing", "changed"), "unknown id nothing");
    assert_eq!(refused("f-rust-stable", "gone"), "unknown force status gone");
    assert_eq!(refused("d-use-rust", "rejected"), "unknown decision status rejected");
    assert_eq!(
        refused("d-deprecated", "deprecated"),
        "only an accepted decision can be deprecated: d-deprecated"
    );
}

#[test]
fn a_deprecated_decision_leaves_the_frontier() {
    let mut disk = fixture();
    let mut engine = disk.engine(bucket());
    let file = engine.set_status("d-use-rust", "deprecated", "").unwrap();
    assert_eq!(file.path, "corpus/decisions/d-use-rust.md");
    disk.write(&file.path, &file.text);
    disk.reload(&mut engine);
    assert!(!engine.snapshot().frontier().contains(&"d-use-rust".to_string()));
    assert!(engine.snapshot().verdicts.superseded.contains("d-use-rust"));
}

// ---- writing and reading back --------------------------------------------

fn awkward_force() -> Force {
    Force {
        id: "f-awkward".to_string(),
        title: "Quotes \" and \\ back: slashes # here".to_string(),
        depends_on: vec!["a, b".to_string(), "[c]".to_string()],
        status_log: vec![
            StatusEntry { status: ForceStatus::Holds, since: "2026-01-01".to_string() },
            StatusEntry { status: ForceStatus::Retired, since: "2026-02-01".to_string() },
        ],
        superseded_by: Some("null".to_string()),
        tags: vec!["yes".to_string(), "1".to_string()],
        body: "Line one\n\nLine two: --- not a fence\n".to_string(),
        path: "x.md".to_string(),
    }
}

#[test]
fn a_written_force_is_read_back() {
    let f = awkward_force();
    match read("x.md", &serialize_force(&f)) {
        Parsed::Force(g) => {
            assert_eq!(g.id, f.id);
            assert_eq!(g.title, f.title);
            assert_eq!(g.depends_on, f.depends_on);
            assert_eq!(g.superseded_by, f.superseded_by);
            assert_eq!(g.tags, f.tags);
            assert_eq!(g.body, f.body);
            assert_eq!(g.status_log.len(), 2);
            assert_eq!(g.status_log[1].since, "2026-02-01");
            assert_eq!(g.current_status(), ForceStatus::Retired);
        }
        other => panic!("expected force, got {other:#?}"),
    }
}

#[test]
fn a_written_decision_is_read_back() {
    let d = Decision {
        id: "d-awkward".to_string(),
        title: "It's: \"so\"".to_string(),
        status: DecisionStatus::Rejected,
        date: "2026-01-01".to_string(),
        cites: vec!["f-a".to_string()],
        supersedes: vec![],
        relates: vec!["d-b".to_string()],
        anchors: vec![Value::String("src/x.rs".to_string())],
        tags: vec![],
        body: "Body\n".to_string(),
        path: "y.md".to_string(),
    };
    match read("y.md", &serialize_decision(&d, "[\"src/x.rs\"]")) {
        Parsed::Decision(e) => {
            assert_eq!(e.id, d.id);
            assert_eq!(e.title, d.title);
            assert_eq!(e.status, d.status);
            assert_eq!(e.date, d.date);
            assert_eq!(e.cites, d.cites);
            assert_eq!(e.supersedes, d.supersedes);
            assert_eq!(e.relates, d.relates);
            assert_eq!(e.anchors, d.anchors);
            assert_eq!(e.body, d.body);
        }
        other => panic!("expected decision, got {other:#?}"),
    }
}

// ---- the server ----------------------------------------------------------

fn ready(disk: &Disk) -> Phase<Bucket> {
    let mut phase = Phase::Loading;
    phase.load_finished(Ok(disk.engine(bucket())));
    phase
}

fn engine_of(phase: &mut Phase<Bucket>) -> &mut Engine<Bucket> {
    match phase {
        Phase::Ready(e) => e,
        _ => panic!("expected a loaded corpus"),
    }
}

fn params(title: &str, forces: Vec<ForceSpec>) -> ProposeParams {
    ProposeParams {
        title: title.to_string(),
        body: None,
        forces,
        supersedes: None,
        relates: None,
        tags: None,
    }
}

fn spec(title: &str) -> ForceSpec {
    ForceSpec::New { title: title.to_string(), body: None, force_new: Some(false) }
}

fn proposed_in(reply: Reply) -> Proposed {
    assert!(reply.error.is_none());
    match reply.body {
        Body::Proposed(p) => p,
        _ => panic!("expected a proposal"),
    }
}

fn hits_in(reply: &Reply) -> usize {
    match &reply.body {
        Body::Hits(h) => h.len(),
        _ => panic!("expected hits"),
    }
}

#[test]
fn acceptance_spec_10_e2e() {
    let mut disk = fixture();
    let mut phase = ready(&disk);

    let proposed = proposed_in(phase.propose_decision(
        params(
            "Acceptance test decision",
            vec![
                spec("A brand new acceptance force"),
                ForceSpec::Existing { existing_id: "f-rust-stable".to_string() },
            ],
        ),
        &similarity,
    ));
    assert!(proposed.problems.is_empty());
    assert!(!proposed.decision.id.is_empty());
    let new_force_id = proposed.new_forces[0].id.clone();

    let c1 = engine_of(&mut phase).commit(proposed, &similarity).unwrap();
    disk.commit(&c1);
    disk.reload(engine_of(&mut phase));
    let decision_id = c1.receipt.decision_id.clone();
    match phase.committed(Ok(c1.receipt)).body {
        Body::Committed(r) => assert!(!r.decision_id.is_empty()),
        _ => panic!("expected a receipt"),
    }

    let proposed2 = proposed_in(phase.propose_decision(
        params("Second acceptance test", vec![spec("A brand new acceptance force")]),
        &similarity,
    ));
    let c2 = engine_of(&mut phase).commit(proposed2, &similarity).unwrap();
    disk.commit(&c2);
    disk.reload(engine_of(&mut phase));
    assert!(!c2.receipt.reused.is_empty(), "second commit should reuse near-dup force");

    let receipt =
        set_status(&mut disk, engine_of(&mut phase), &new_force_id, "changed").unwrap();
    match phase.status_set(Ok(receipt)).body {
        Body::StatusSet(r) => assert!(!r.newly_stale.is_empty()),
        _ => panic!("expected a receipt"),
    }

    match phase.stale_report().body {
        Body::Stale { entries, diagnostics } => {
            assert!(!entries.is_empty());
            assert_eq!(diagnostics.len(), 4);
        }
        _ => panic!("expected a report"),
    }

    let why = phase.why(&decision_id);
    assert!(why.error.is_none());
    assert!(matches!(why.body, Body::Chain(_)), "why should return chain");
}

#[test]
fn acceptance_spec_11_empty_mode() {
    let phase: Phase<Bucket> = Phase::Empty;
    let found = phase.search("anything", &Some("both".to_string()), 10, &similarity);
    assert_eq!(hits_in(&found), 0, "empty corpus should return no hits");
    assert!(found.hint.is_some(), "empty-mode search should have a hint");

    let proposed = phase.propose_decision(params("x", vec![]), &similarity);
    assert!(proposed.error.is_some(), "propose in empty mode should be refused");
}

#[test]
fn acceptance_spec_12_init_loads_corpus() {
    let mut phase: Phase<Bucket> = Phase::Empty;
    assert!(phase.init_begin().is_none());
    let disk = fixture();
    let outcome = set_up(
        &|| match scaffold::ensure_corpus("corpus", true) {
            scaffold::Corpus::There(p) => Ok(p),
            scaffold::Corpus::New(_) => Err("the corpus is there".to_string()),
        },
        &|_: &String| Ok(config()),
        &|_: &Config| Ok(bucket()),
        &|_: Config, embedder: Bucket| disk.try_engine(embedder),
    );
    let reply = phase.init_end(outcome);
    assert_eq!(reply.status.as_deref(), Some("loaded"));
    assert!(matches!(reply.body, Body::Config(p) if p == "corpus/forge.toml"));

    let found = phase.search("rust", &Some("both".to_string()), 5, &similarity);
    assert!(found.hint.is_none(), "loaded corpus should not show the empty-mode hint");
    assert!(hits_in(&found) > 0, "fixtures corpus should return hits after init");

    let again = phase.init_begin().unwrap();
    assert_eq!(again.status.as_deref(), Some("already loaded"));
}

#[test]
fn the_step_that_fails_ends_the_set_up_and_is_named() {
    let disk = fixture();
    let reached = Cell::new(0);
    let run = |at: u32| {
        reached.set(0);
        let step = |k: u32| {
            reached.set(k);
            at != k
        };
        let outcome: Init<Bucket> = set_up(
            &|| if step(1) { Ok("p".to_string()) } else { Err("a".to_string()) },
            &|path: &String| {
                assert_eq!(path, "p");
                if step(2) { Ok(config()) } else { Err(ConfigError::MissingRoots) }
            },
            &|_: &Config| if step(3) { Ok(bucket()) } else { Err(EmbedError("c".to_string())) },
            &|_: Config, e: Bucket| {
                if step(4) { disk.try_engine(e) } else { Err("d".to_string()) }
            },
        );
        let mut phase: Phase<Bucket> = Phase::Empty;
        let reply = phase.init_end(outcome);
        (reply.error, reached.get())
    };
    let error = |m: &str| Some(m.to_string());
    assert_eq!(run(1), (error("failed to scaffold corpus: a"), 1));
    assert_eq!(run(2), (error("failed to load config: missing required field: roots"), 2));
    assert_eq!(run(3), (error("failed to create embedder: c"), 3));
    assert_eq!(run(4), (error("failed to initialize engine: d"), 4));
    assert_eq!(run(0), (None, 4));
}

#[test]
fn acceptance_spec_13_reindex_picks_up_manual_edits() {
    let mut disk = fixture();
    let mut phase = ready(&disk);
    let proposed = proposed_in(phase.propose_decision(
        params(
            "Reindex target decision",
            vec![ForceSpec::Existing { existing_id: "f-rust-stable".to_string() }],
        ),
        &similarity,
    ));
    let c = engine_of(&mut phase).commit(proposed, &similarity).unwrap();
    disk.commit(&c);
    disk.reload(engine_of(&mut phase));
    let decision_id = c.receipt.decision_id;

    let file = format!("corpus/decisions/{decision_id}.md");
    let edited: String = disk
        .text(&file)
        .lines()
        .map(|l| {
            if l.starts_with("date:") {
                "date: 2026-06-10".to_string()
            } else {
                l.to_string()
            }
        })
        .collect::<Vec<_>>()
        .join("\n");
    disk.write(&file, &edited);

    disk.reload(engine_of(&mut phase));
    let reply = phase.reindexed(Ok(()));
    assert_eq!(reply.status.as_deref(), Some("reindexed"));
    assert!(matches!(
        reply.body,
        Body::Counts { decisions: 9, forces: 9, problems: 4 }
    ));

    match phase.get(&decision_id).body {
        Body::Record(RecordReply::Decision { decision, .. }) => {
            assert_eq!(decision.date, "2026-06-10")
        }
        _ => panic!("expected a decision"),
    }
}

#[test]
fn a_record_is_answered_with_its_neighbours_both_ways() {
    let phase = ready(&fixture());
    match phase.get("d-old-storage").body {
        Body::Record(RecordReply::Decision {
            decision,
            neighbours,
            verdict,
            superseded,
            on_frontier,
            status,
        }) => {
            assert_eq!(decision.cites, vec!["f-retired-old"]);
            assert_eq!(decision.relates, vec!["d-use-rust"]);
            assert_eq!(decision.tags, vec!["storage"]);
            assert_eq!(decision.anchors.len(), 1);
            assert_eq!(neighbours.superseded_by, vec!["d-new-storage"]);
            assert!(neighbours.cited_by.is_empty() && neighbours.depended_by.is_empty());
            assert!(matches!(verdict, Some(PremiseVerdict::Stale { .. })));
            assert!(superseded);
            assert!(!on_frontier);
            assert_eq!(status, "accepted");
        }
        _ => panic!("expected a decision"),
    }
    match phase.get("f-onnx-portable").body {
        Body::Record(RecordReply::Force { force, current_status, neighbours }) => {
            assert_eq!(current_status, "changed");
            assert_eq!(force.status_log.len(), 2);
            assert_eq!(force.title, "ONNX runs everywhere");
            assert_eq!(neighbours.depended_by, vec!["f-model-small"]);
            assert_eq!(neighbours.cited_by, vec!["d-embed-onnx"]);
        }
        _ => panic!("expected a force"),
    }
    assert_eq!(phase.get("nothing").error.as_deref(), Some("not found"));
    assert_eq!(phase.why("nothing").error.as_deref(), Some("not found"));
}

#[test]
fn every_request_is_refused_until_the_corpus_is_loaded() {
    let hint = "No forge.toml in this project. Call the `init` tool (after user assent) to scaffold a corpus.";
    let empty: Phase<Bucket> = Phase::Empty;
    assert_eq!(empty.get("x").error.as_deref(), Some("not found"));
    assert_eq!(empty.get("x").hint.as_deref(), Some(hint));
    assert_eq!(empty.why("x").hint.as_deref(), Some(hint));
    assert_eq!(empty.stale_report().hint.as_deref(), Some(hint));
    assert_eq!(
        empty.refusal(Need::Write).unwrap().error.as_deref(),
        Some("no corpus; call `init` first (after user assent)")
    );

    let loading: Phase<Bucket> = Phase::Loading;
    for reply in [
        loading.get("x"),
        loading.why("x"),
        loading.stale_report(),
        loading.reindexed(Ok(())),
        loading.init_begin().unwrap(),
        loading.refusal(Need::Write).unwrap(),
    ] {
        assert_eq!(reply.status.as_deref(), Some("loading"));
        assert_eq!(
            reply.hint.as_deref(),
            Some("The corpus is still loading (the embedding model may be downloading). Retry in a few seconds.")
        );
    }

    let mut failed: Phase<Bucket> = Phase::Loading;
    failed.load_finished(Err("no model".to_string()));
    let reply = failed.search("x", &None, default_limit(), &similarity);
    assert_eq!(reply.error.as_deref(), Some("corpus failed to load: no model"));
    assert_eq!(
        reply.hint.as_deref(),
        Some("Fix the problem and restart the forge-mcp server.")
    );
    assert!(failed.init_begin().is_none());
    assert!(ready(&fixture()).refusal(Need::Hits).is_none());
}

#[test]
fn a_failed_init_leaves_the_phase_as_it_is() {
    let mut phase: Phase<Bucket> = Phase::Empty;
    for (step, text) in [
        (Step::Scaffold, "failed to scaffold corpus: no"),
        (Step::Config, "failed to load config: no"),
        (Step::Embedder, "failed to create embedder: no"),
        (Step::Engine, "failed to initialize engine: no"),
    ] {
        let reply = phase.init_end(Init::Failed { step, message: "no".to_string() });
        assert_eq!(reply.error.as_deref(), Some(text));
        assert!(matches!(phase, Phase::Empty));
    }
}

#[test]
fn failures_of_writes_are_answered_with_their_messages() {
    let phase = ready(&fixture());
    assert_eq!(phase.committed(Err("a".to_string())).error.as_deref(), Some("a"));
    assert_eq!(phase.status_set(Err("b".to_string())).error.as_deref(), Some("b"));
    assert_eq!(phase.reindexed(Err("c".to_string())).error.as_deref(), Some("c"));
}
