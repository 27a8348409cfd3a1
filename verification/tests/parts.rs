//! The parts of the library, each on its own.
use forge_core::chars::{alphanumeric, to_lower, trim, words_of};
use forge_core::config::{default_cache_dir, Config, ConfigError, RawConfig};
use forge_core::cycles::detect_cycles;
use forge_core::discovery::has_record_frontmatter;
use forge_core::embed::cache::{sanitize_filename, CacheEntry, StoredVectors, VectorCache};
use forge_core::embed::e5::{flatten_rows, prepare_batches};
use forge_core::embed::fake::{fill_buckets, BucketEmbedder};
use forge_core::embed::{default_embedder, prefetch_model, Choice, Embedder, NullEmbedder};
use forge_core::ids::{make_slug, to_decimal};
use forge_core::inspect::{read_options, read_scope};
use forge_core::logging::format_is_json;
use forge_core::order::sort;
use forge_core::paths::{
    has_markdown_extension, join, native, path_not_after, place, slash, System,
};
use forge_core::recall::Scope;
use forge_core::record::{
    check_status_log, extract_frontmatter, may_pass, Force, ForceStatus, StatusEntry,
};
use forge_core::resolve::{resolve_config, Probe};
use forge_core::scaffold;
use forge_core::score::{Double, Single, Vector};
use forge_core::serialize::quote;
use forge_core::server::{default_limit, read_proposal, scope_of, ForceSpec, ProposeParams};
use forge_core::snapshot::embed_text;

fn single(x: f32) -> Single {
    Single { bits: x.to_bits() }
}

fn double(x: f64) -> Double {
    Double { bits: x.to_bits() }
}

fn vector(xs: &[f32]) -> Vector {
    xs.iter().map(|x| single(*x)).collect()
}

fn floats(v: &Vector) -> Vec<f32> {
    v.iter().map(|s| f32::from_bits(s.bits)).collect()
}

fn texts(xs: &[&str]) -> Vec<String> {
    xs.iter().map(|x| x.to_string()).collect()
}

fn text(x: &str) -> Option<String> {
    Some(x.to_string())
}

// ---- the cache of vectors ------------------------------------------------

/// The text of the file that a cache is stored in.
fn file_of(cache: &VectorCache) -> String {
    let mut vectors = serde_json::Map::new();
    for e in cache.entries() {
        let xs: Vec<serde_json::Value> =
            floats(&e.vector).iter().map(|x| serde_json::Value::from(*x)).collect();
        vectors.insert(e.hash.clone(), serde_json::Value::Array(xs));
    }
    let mut file = serde_json::Map::new();
    file.insert("model_id".to_string(), serde_json::Value::from(cache.model_id()));
    file.insert("vectors".to_string(), serde_json::Value::Object(vectors));
    serde_json::Value::Object(file).to_string()
}

/// What is stored in a file with the given text, if it can be read.
fn stored_in(text: &str) -> Option<StoredVectors> {
    let file: serde_json::Value = serde_json::from_str(text).ok()?;
    let mut entries = Vec::new();
    for (hash, xs) in file.get("vectors")?.as_object()? {
        let xs: Vec<f32> = xs.as_array()?.iter().map(|x| x.as_f64().unwrap() as f32).collect();
        entries.push(CacheEntry { hash: hash.clone(), vector: vector(&xs) });
    }
    Some(StoredVectors { model_id: file.get("model_id")?.as_str()?.to_string(), entries })
}

#[test]
fn cache_round_trip() {
    let mut cache = VectorCache::new("dir".to_string(), "test-model", None);
    let hash = cache.content_hash("some text to embed");
    let vec = vector(&[1.0, 2.0, 3.0]);
    cache.put(&hash, &vec);
    assert_eq!(floats(cache.get(&hash).unwrap()), vec![1.0, 2.0, 3.0]);
    let cache2 = VectorCache::new("dir".to_string(), "test-model", stored_in(&file_of(&cache)));
    assert_eq!(floats(cache2.get(&hash).unwrap()), vec![1.0, 2.0, 3.0]);
}

#[test]
fn different_model_id_misses() {
    let mut cache = VectorCache::new("dir".to_string(), "model-a", None);
    let hash = cache.content_hash("text");
    cache.put(&hash, &vector(&[1.0]));
    let cache2 = VectorCache::new("dir".to_string(), "model-b", stored_in(&file_of(&cache)));
    assert!(cache2.get(&hash).is_none());
    assert_ne!(cache.file_path(), cache2.file_path());
}

#[test]
fn models_with_the_same_file_do_not_share_vectors() {
    let mut a = VectorCache::new("dir".to_string(), "m/x", None);
    a.put("h", &vector(&[1.0]));
    let mut b = VectorCache::new("dir".to_string(), "m_x", stored_in(&file_of(&a)));
    assert_eq!(a.file_path(), b.file_path());
    assert!(b.get("h").is_none());
    let same = VectorCache::new("dir".to_string(), "m/x", stored_in(&file_of(&a)));
    assert!(same.get("h").is_some());

    b.put("h", &vector(&[2.0]));
    b.serve("m_x");
    assert_eq!(floats(b.get("h").unwrap()), vec![2.0]);
    b.serve("m/x");
    assert!(b.get("h").is_none());
    assert_eq!(b.model_id(), "m/x");
}

#[test]
fn corrupt_cache_file_is_ignored_and_recomputed() {
    let mut cache2 = VectorCache::new("dir".to_string(), "model-x", stored_in("not valid json"));
    assert_eq!(cache2.file_path(), "dir/model-x.json");
    let hash = cache2.content_hash("hello");
    assert!(cache2.get(&hash).is_none());
    cache2.put(&hash, &vector(&[1.0]));
    assert!(cache2.get(&hash).is_some());
}

#[test]
fn a_later_vector_takes_the_place_of_an_earlier_one() {
    let mut cache = VectorCache::new("dir".to_string(), "m", None);
    cache.put("h", &vector(&[1.0]));
    cache.put("h", &vector(&[2.0]));
    assert_eq!(floats(cache.get("h").unwrap()), vec![2.0]);
    assert_eq!(cache.entries().len(), 1);
}

#[test]
fn contents_are_hashed_with_sha256() {
    let cache = VectorCache::new("dir".to_string(), "m", None);
    assert_eq!(
        cache.content_hash("abc"),
        "ba7816bf8f01cfea414140de5dae2223b00361a396177a9cb410ff61f20015ad"
    );
    assert_eq!(
        cache.content_hash(""),
        "e3b0c44298fc1c149afbf4c8996fb92427ae41e4649b934ca495991b7852b855"
    );
}

#[test]
fn model_names_become_file_names() {
    assert_eq!(sanitize_filename("intfloat/multilingual-e5_small.v1"), "intfloat_multilingual-e5_small_v1");
    let cache = VectorCache::new("dir".to_string(), "a/b", None);
    assert_eq!(cache.file_path(), "dir/a_b.json");
    assert_eq!(cache.temporary_path(), "dir/a_b.json.tmp");
}

// ---- embedders -----------------------------------------------------------

#[test]
fn words_are_counted_in_buckets() {
    let counts = fill_buckets(&vec![0, 256, 3, 259, 515]);
    assert_eq!(counts.len(), 256);
    assert_eq!(counts[0], 2);
    assert_eq!(counts[3], 3);
    assert_eq!(counts.iter().sum::<u64>(), 5);

    let e = BucketEmbedder::new();
    assert_eq!(e.embed_text("Rust, rust!"), e.embed_text("rust rust"));
    let twice = e.embed_text("rust rust");
    assert_eq!(twice.iter().sum::<u64>(), 2);
    assert_eq!(twice.iter().filter(|c| **c == 2).count(), 1);
    assert_eq!(e.embed_text("!?").iter().sum::<u64>(), 0);
}

#[test]
fn the_null_embedder_gives_empty_vectors() {
    assert_eq!(NullEmbedder.model_id(), "null");
    assert!(NullEmbedder.embed_query("x").unwrap().is_empty());
    let vs = NullEmbedder.embed_passages(&texts(&["a", "b"])).unwrap();
    assert_eq!(vs.len(), 2);
    assert!(vs.iter().all(|v| v.is_empty()));
}

fn config_with(model: &str) -> Config {
    let raw = RawConfig {
        roots: Some(texts(&["r"])),
        reuse: None,
        warn: None,
        model: text(model),
        cache_dir: None,
        write_dir: None,
        log_level: None,
        log_format: None,
        log_file: None,
    };
    match Config::from_fields(System::Unix, raw, "d", "c".to_string()) {
        Ok(c) => c,
        Err(e) => panic!("{}", e.message()),
    }
}

#[test]
fn the_configuration_names_the_embedder() {
    assert!(default_embedder(&config_with("fake-bucket"), true).unwrap() == Choice::Bucket);
    assert!(default_embedder(&config_with("fake-pinned"), true).unwrap() == Choice::Pinned);
    let model = Choice::Model("m".to_string());
    assert!(default_embedder(&config_with("m"), true).unwrap() == model);
    assert_eq!(
        default_embedder(&config_with("m"), false).err().unwrap().message(),
        "unknown model 'm' (onnx feature not enabled)"
    );
    assert_eq!(prefetch_model(&config_with("m"), true).unwrap(), text("m"));
    assert_eq!(
        prefetch_model(&config_with("m"), false).err().unwrap().message(),
        "unknown model 'm' (onnx feature not enabled)"
    );
}

#[test]
fn batches_hold_all_texts_in_order() {
    let all: Vec<String> = (0..35).map(|i| format!("t{i}")).collect();
    let batches = prepare_batches(&all, "query: ");
    let sizes: Vec<usize> = batches.iter().map(|b| b.len()).collect();
    assert_eq!(sizes, vec![16, 16, 3]);
    let flat: Vec<String> = batches.into_iter().flatten().collect();
    assert_eq!(flat.len(), 35);
    assert_eq!(flat[0], "query: t0");
    assert_eq!(flat[34], "query: t34");
    assert!(prepare_batches(&vec![], "p").is_empty());
    assert_eq!(flatten_rows(&vec![vec![1, 2], vec![], vec![3]]), vec![1i64, 2, 3]);
}

// ---- configuration -------------------------------------------------------

fn empty_raw() -> RawConfig {
    RawConfig {
        roots: None,
        reuse: None,
        warn: None,
        model: None,
        cache_dir: None,
        write_dir: None,
        log_level: None,
        log_format: None,
        log_file: None,
    }
}

#[test]
fn what_the_file_leaves_out_has_a_default() {
    let mut raw = empty_raw();
    raw.roots = Some(texts(&["a", "/b"]));
    let cfg = match Config::from_fields(System::Unix, raw, "dir", "cache".to_string()) {
        Ok(c) => c,
        Err(e) => panic!("{}", e.message()),
    };
    assert_eq!(cfg.roots, vec!["dir/a", "/b"]);
    assert_eq!(cfg.write_dir, "dir/a");
    assert_eq!(cfg.cache_dir, "cache");
    assert_eq!(f64::from_bits(cfg.dedup.reuse.bits), 0.90);
    assert_eq!(f64::from_bits(cfg.dedup.warn.bits), 0.75);
    assert_eq!(cfg.embedding.model, "intfloat/multilingual-e5-small");
    assert_eq!(cfg.log.level, "info");
    assert_eq!(cfg.log.format, "compact");
    assert!(cfg.log.file.is_none());
}

#[test]
fn what_the_file_says_is_taken() {
    let mut raw = empty_raw();
    raw.roots = Some(texts(&["a"]));
    raw.reuse = Some(double(0.8));
    raw.warn = Some(double(0.5));
    raw.model = text("m");
    raw.cache_dir = text("c");
    raw.write_dir = text("w");
    raw.log_level = text("debug");
    raw.log_format = text("json");
    raw.log_file = text("l");
    let cfg = match Config::from_fields(System::Unix, raw, "dir", "cache".to_string()) {
        Ok(c) => c.clone(),
        Err(e) => panic!("{}", e.message()),
    };
    assert_eq!(cfg.write_dir, "dir/w");
    assert_eq!(cfg.cache_dir, "dir/c");
    assert_eq!(f64::from_bits(cfg.dedup.reuse.bits), 0.8);
    assert_eq!(f64::from_bits(cfg.dedup.warn.bits), 0.5);
    assert_eq!(cfg.embedding.model, "m");
    assert_eq!(cfg.log.level, "debug");
    assert_eq!(cfg.log.format, "json");
    assert_eq!(cfg.log.file, text("l"));
}

#[test]
fn each_failure_of_loading_has_its_message() {
    let parse = |_: &str| -> Result<RawConfig, String> { Err("bad toml".to_string()) };
    let cache = || "c".to_string();
    let there = |_: &str| true;
    let unix = System::Unix;
    let e = Config::load(unix, Err("gone".to_string()), text("d"), parse, &there, cache()).err().unwrap();
    assert_eq!(e.message(), "io error: gone");
    let e = Config::load(unix, Ok(String::new()), None, parse, &there, cache()).err().unwrap();
    assert_eq!(e.message(), "config file has no parent directory");
    let e = Config::load(unix, Ok(String::new()), text("d"), parse, &there, cache()).err().unwrap();
    assert_eq!(e.message(), "parse error: bad toml");
    let mut raw = empty_raw();
    raw.roots = Some(vec![]);
    let e = Config::from_fields(System::Unix, raw, "d", cache()).err().unwrap();
    assert!(matches!(e, ConfigError::MissingRoots));
    assert_eq!(e.message(), "missing required field: roots");
}

#[test]
fn the_cache_lies_below_the_home_directory() {
    assert_eq!(default_cache_dir(System::Unix, text("/home/x"), text("/p")), "/home/x/.cache/forge");
    assert_eq!(default_cache_dir(System::Unix, None, text("/p")), "/p/.cache/forge");
    assert_eq!(default_cache_dir(System::Unix, None, None), "./.cache/forge");
}

// ---- finding the configuration -------------------------------------------

fn probe(dir: &str, has_config: bool, has_git: bool) -> Probe {
    Probe { dir: dir.to_string(), has_config, has_git }
}

#[test]
fn explicit_path_wins_over_env_and_walk() {
    let got = resolve_config(
        text("explicit/forge.toml"),
        text("env/forge.toml"),
        &vec![probe("/tmp", true, false)],
    );
    assert_eq!(got.unwrap(), "explicit/forge.toml");
}

#[test]
fn env_wins_over_walk() {
    let got = resolve_config(None, text("env/forge.toml"), &vec![probe("/tmp", true, false)]);
    assert_eq!(got.unwrap(), "env/forge.toml");
}

#[test]
fn walk_finds_config_in_ancestor() {
    let probes = vec![
        probe("/tmp/a/b", false, false),
        probe("/tmp/a", false, false),
        probe("/tmp", true, false),
        probe("/", false, false),
    ];
    assert_eq!(resolve_config(None, None, &probes).unwrap(), "/tmp/forge.toml");
}

#[test]
fn config_in_repo_root_is_found_even_with_git_marker() {
    let probes = vec![probe("/tmp/src", false, false), probe("/tmp", true, true)];
    assert_eq!(resolve_config(None, None, &probes).unwrap(), "/tmp/forge.toml");
}

#[test]
fn miss_returns_none() {
    let probes = vec![probe("/tmp", false, true), probe("/", false, false)];
    assert!(resolve_config(None, None, &probes).is_none());
}

#[test]
fn walk_stops_at_git_boundary() {
    let probes = vec![
        probe("/tmp/repo/src", false, false),
        probe("/tmp/repo", false, true),
        probe("/tmp", true, false),
    ];
    assert!(resolve_config(None, None, &probes).is_none());
}

// ---- setting up a corpus -------------------------------------------------

#[test]
fn init_creates_missing_target_dir() {
    let s = scaffold::init(System::Unix, "tmp/new/nested", false).unwrap();
    assert_eq!(s.config_path, "tmp/new/nested/forge.toml");
    assert!(s.dirs.contains(&"tmp/new/nested/decisions".to_string()));
}

#[test]
fn init_refuses_existing_config() {
    let err = scaffold::init(System::Unix, "tmp", true).unwrap_err();
    assert!(err.contains("already exists"), "got: {err}");
    assert_eq!(err, "tmp/forge.toml already exists; refusing to overwrite");
}

#[test]
fn a_corpus_that_is_there_is_left_untouched() {
    assert!(
        matches!(scaffold::ensure_corpus("d", true), scaffold::Corpus::There(p) if p == "d/forge.toml")
    );
    match scaffold::ensure_corpus("d", false) {
        scaffold::Corpus::New(s) => {
            assert_eq!(s.text, scaffold::forge_toml_template());
            assert!(s.text.starts_with("roots = [\"decisions\", \"forces\"]\n"));
        }
        scaffold::Corpus::There(_) => panic!("there is none"),
    }
}

// ---- command lines -------------------------------------------------------

#[test]
fn the_inspector_reads_its_options() {
    assert!(read_options(&texts(&["forge-inspect"])).is_none());
    let o = read_options(&texts(&[
        "forge-inspect", "c.toml", "--json", "--search", "rust", "--scope", "force",
    ]))
    .unwrap();
    assert_eq!(o.config_path, "c.toml");
    assert!(o.as_json);
    assert_eq!(o.query, text("rust"));
    assert_eq!(o.scope, text("force"));
    let bare = read_options(&texts(&["forge-inspect", "c.toml", "--search"])).unwrap();
    assert!(!bare.as_json);
    assert!(bare.query.is_none());
    assert!(bare.scope.is_none());
}

#[test]
fn scopes_have_names() {
    assert!(matches!(read_scope(&None), Ok(Scope::Both)));
    assert!(matches!(read_scope(&text("both")), Ok(Scope::Both)));
    assert!(matches!(read_scope(&text("force")), Ok(Scope::Force)));
    assert!(matches!(read_scope(&text("decision")), Ok(Scope::Decision)));
    assert!(matches!(read_scope(&text("x")), Err(w) if w == "x"));
    assert!(matches!(scope_of(&None), Scope::Both));
    assert!(matches!(scope_of(&text("force")), Scope::Force));
    assert!(matches!(scope_of(&text("decision")), Scope::Decision));
    assert!(matches!(scope_of(&text("x")), Scope::Both));
    assert_eq!(default_limit(), 10);
}

#[test]
fn the_environment_decides_on_the_format_of_the_log() {
    assert!(format_is_json(text("JSON"), "compact"));
    assert!(!format_is_json(text("pretty"), "json"));
    assert!(format_is_json(None, "json"));
    assert!(!format_is_json(None, "JSON"));
}

#[test]
fn a_request_leaves_out_what_is_empty() {
    let input = read_proposal(ProposeParams {
        title: "T".to_string(),
        body: None,
        forces: vec![
            ForceSpec::New { title: "a".to_string(), body: text("b"), force_new: Some(true) },
            ForceSpec::New { title: "c".to_string(), body: None, force_new: None },
            ForceSpec::Existing { existing_id: "f".to_string() },
        ],
        supersedes: Some(texts(&["d"])),
        relates: None,
        tags: None,
    });
    assert_eq!(input.body, "");
    assert_eq!(input.supersedes, vec!["d"]);
    assert!(input.relates.is_empty() && input.tags.is_empty());
    assert_eq!(
        format!("{:?}", input.forces),
        "[New { title: \"a\", body: \"b\", force_new: true }, New { title: \"c\", body: \"\", force_new: false }, Existing { id: \"f\" }]"
    );
}

// ---- numbers, texts and paths --------------------------------------------

#[test]
fn scores_compare_as_the_numbers_they_stand_for() {
    let tiny = f32::from_bits(1);
    let small = f32::from_bits(0x7f_ffff);
    let normal = f32::MIN_POSITIVE;
    let xs = [
        f32::NEG_INFINITY, f32::MIN, -2.5, -normal, -tiny, -0.0, 0.0, tiny, 3.0 * tiny, small,
        normal, 0.5, 0.75, 0.9, 1.0, f32::MAX, f32::INFINITY,
    ];
    let more = [0.9, 0.89999997, 1e-320, 5e-46, 1e300, -1e300, f64::MIN_POSITIVE];
    for a in xs {
        for b in xs {
            assert_eq!(single(a).reaches(double(f64::from(b))), a >= b, "{a} {b}");
            assert_eq!(single(a).rank() >= single(b).rank(), a >= b, "{a} {b}");
        }
        for b in more {
            assert_eq!(single(a).reaches(double(b)), f64::from(a) >= b, "{a} {b}");
        }
        assert!(!single(f32::NAN).reaches(double(f64::from(a))));
        assert!(!single(a).reaches(double(f64::NAN)));
        assert!(single(f32::NAN).rank() < single(a).rank());
    }
}

#[test]
fn paths_are_placed_by_the_rules_of_the_system() {
    let unix = |dir: &str, path: &str| place(System::Unix, dir, path);
    for (dir, path) in [
        ("/a/b", "c"), ("/a/b", "/c"), ("", "c"), ("/a/", "c"), ("a", ""), ("a", "../c"),
        ("/a", "C:\\c"), ("/a", "b\\c"),
    ] {
        let expected = std::path::Path::new(dir).join(path);
        assert_eq!(unix(dir, path), expected.to_str().unwrap());
    }

    let windows = |dir: &str, path: &str| {
        native(System::Windows, &place(System::Windows, dir, path))
    };
    assert_eq!(windows("C:\\work", "D:\\corpus"), "D:\\corpus");
    assert_eq!(windows("C:\\work", "d:/corpus"), "d:\\corpus");
    assert_eq!(windows("C:\\work", "records"), "C:\\work\\records");
    assert_eq!(windows("C:\\work", "..\\records/x"), "C:\\work\\..\\records\\x");
    assert_eq!(windows("C:\\", "records"), "C:\\records");
    assert_eq!(windows("C:\\work", "\\records"), "C:\\records");
    assert_eq!(windows("work", "/records"), "\\records");
    assert_eq!(windows("C:\\work", "D:records"), "D:records");
    assert_eq!(windows("C:\\work", "\\\\server\\share\\x"), "\\\\server\\share\\x");
    assert_eq!(windows("\\\\server\\share\\x", "\\y"), "\\\\server\\share\\y");
    assert_eq!(windows("\\\\server\\share", "y"), "\\\\server\\share\\y");
    assert_eq!(windows("C:\\work", "\\\\server"), "C:\\\\server");
    assert_eq!(windows("\\\\?\\C:\\work", "../.\\x"), "\\\\?\\C:\\x");
    assert_eq!(windows("\\\\?\\C:\\work", "..\\..\\..\\x"), "\\\\?\\C:\\x");
    assert_eq!(windows("\\\\?\\C:\\work", "/x"), "\\\\?\\C:\\x");
    assert_eq!(windows("", "x"), "x");
}

#[test]
fn paths_are_taken_in_and_given_back() {
    assert_eq!(slash(System::Unix, "a\\b/c"), "a\\b/c");
    assert_eq!(slash(System::Windows, "C:\\b/c"), "C:/b/c");
    assert_eq!(slash(System::Windows, "C:"), "C:.");
    assert_eq!(native(System::Unix, "/a/b"), "/a/b");
    assert_eq!(native(System::Windows, "C:/b/c"), "C:\\b\\c");
    assert_eq!(join(&slash(System::Windows, "C:\\b"), "d.md"), "C:/b/d.md");
}

#[test]
fn a_configuration_keeps_drive_paths_on_windows() {
    let parse = |_: &str| {
        let mut raw = empty_raw();
        raw.roots = Some(texts(&["D:\\corpus", "forces"]));
        raw.cache_dir = text("\\cache");
        Ok(raw)
    };
    let load = |system: System, there: bool| {
        let none = String::new;
        Config::load(system, Ok(none()), text("C:\\work"), parse, &|_: &str| there, none())
    };
    let cfg = load(System::Windows, true).unwrap();
    assert_eq!(cfg.roots, vec!["D:/corpus", "C:/work/forces"]);
    assert_eq!(cfg.write_dir, "D:/corpus");
    assert_eq!(cfg.cache_dir, "C:/cache");
    let cfg = load(System::Unix, true).unwrap();
    assert_eq!(cfg.roots[0], "C:\\work/D:\\corpus");
    let e = load(System::Windows, false).err().unwrap();
    assert_eq!(e.message(), "root directory does not exist: D:\\corpus");
    let home = default_cache_dir(System::Windows, None, text("C:\\Users\\x"));
    assert_eq!(home, "C:/Users/x/.cache/forge");
    let e = scaffold::init(System::Windows, "C:/work", true).unwrap_err();
    assert_eq!(e, "C:\\work\\forge.toml already exists; refusing to overwrite");
}

#[test]
fn sorting_rearranges_into_order() {
    let sorted = sort(texts(&["b", "a", "ab", "", "a"]));
    assert_eq!(sorted, vec!["", "a", "a", "ab", "b"]);
    let again = sort(texts(&["a", "", "a", "b", "ab"]));
    assert_eq!(sorted, again);
}

#[test]
fn slugs_are_short_and_plain() {
    assert_eq!(make_slug("Hello, World! 2026"), "hello-world-2026");
    assert_eq!(make_slug("  --Ähm--  "), "ähm");
    assert_eq!(make_slug("!?"), "");
    assert_eq!(make_slug(&"a".repeat(60)), "a".repeat(48));
    let cut = format!("{} bc", "a".repeat(47));
    assert_eq!(make_slug(&cut), "a".repeat(47));
    assert_eq!(make_slug(&format!("a{}", "é".repeat(30))), format!("a{}", "é".repeat(23)));
    assert_eq!(to_decimal(0), "0");
    assert_eq!(to_decimal(1900), "1900");
    assert_eq!(to_decimal(u64::MAX), "18446744073709551615");
}

#[test]
fn characters_are_those_of_unicode() {
    assert!(alphanumeric('a') && alphanumeric('é') && alphanumeric('٣'));
    assert!(!alphanumeric('-') && !alphanumeric(' '));
    assert_eq!(to_lower("ÄB"), "äb");
    assert_eq!(words_of("One, two--THREE"), vec!["one", "two", "three"]);
    let padded: Vec<char> = "\t a b\u{2003}\n".chars().collect();
    assert_eq!(trim(&padded).into_iter().collect::<String>(), "a b");
}

#[test]
fn paths_are_joined_and_compared_by_their_parts() {
    assert_eq!(join("a", "b"), "a/b");
    assert_eq!(join("a/", "b"), "a/b");
    assert_eq!(join("a", "/b"), "/b");
    assert_eq!(join("", "b"), "b");
    assert!(path_not_after("a/b", "a-b"));
    assert!(!path_not_after("a-b", "a/b"));
    assert!(path_not_after("a//b/./", "a/b") && path_not_after("a/b", "a//b/./"));
    assert!(has_markdown_extension("x/y.md"));
    assert!(has_markdown_extension("x/y.tar.md"));
    assert!(!has_markdown_extension("x/.md"));
    assert!(!has_markdown_extension("x/y.MD"));
    assert!(!has_markdown_extension("md"));
}

#[test]
fn texts_are_quoted_for_yaml() {
    for s in ["plain", "a \"b\" \\ c", "x: y # z", "", "line\nbreak", "tab\there"] {
        let back: String = serde_yaml::from_str(&quote(s)).unwrap();
        assert_eq!(back, s);
    }
}

#[test]
fn what_is_embedded_has_title_body_and_tags() {
    let t = embed_text("T", "B", &texts(&["x", "y"]));
    for part in ["T", "B", "x", "y"] {
        assert!(t.contains(part), "{t}");
    }
}

// ---- records -------------------------------------------------------------

#[test]
fn frontmatter_is_cut_from_the_body() {
    assert_eq!(extract_frontmatter("---\na: b\n---\nBody"), Some(("a: b".to_string(), "Body".to_string())));
    assert_eq!(extract_frontmatter("---\na: b\n---"), Some(("a: b".to_string(), String::new())));
    assert_eq!(
        extract_frontmatter("---\na: 1\n---\nbody\r\n---\nx"),
        Some(("a: 1".to_string(), "body\r\n---\nx".to_string()))
    );
    assert_eq!(
        extract_frontmatter("---\r\na: 1\r\n---\r\nbody\n---\n"),
        Some(("a: 1".to_string(), "body\n---\n".to_string()))
    );
    assert_eq!(extract_frontmatter("a: b\n---\n"), None);
    assert_eq!(extract_frontmatter("---\na: b\n"), None);
    assert!(has_record_frontmatter("---\ntype: force\n"));
    assert!(!has_record_frontmatter("type: force\n"));
}

fn entry(status: ForceStatus, since: &str) -> StatusEntry {
    StatusEntry { status, since: since.to_string() }
}

#[test]
fn a_history_goes_forward() {
    let all = [ForceStatus::Holds, ForceStatus::Changed, ForceStatus::Retired];
    for (i, a) in all.iter().enumerate() {
        for (j, b) in all.iter().enumerate() {
            assert_eq!(may_pass(*a, *b), i < j);
        }
    }
    let log = vec![entry(ForceStatus::Holds, "a"), entry(ForceStatus::Retired, "b")];
    assert!(check_status_log(&log, &vec![Some(1), Some(1)]).is_none());
    assert!(check_status_log(&log, &vec![Some(2), Some(1)]).is_some());
    assert!(check_status_log(&log, &vec![Some(1), None]).is_some());
    assert!(check_status_log(&vec![], &vec![]).is_some());
}

fn force_on(id: &str, deps: &[&str]) -> Force {
    Force {
        id: id.to_string(),
        title: String::new(),
        depends_on: texts(deps),
        status_log: vec![entry(ForceStatus::Holds, "2026-01-01")],
        superseded_by: None,
        tags: vec![],
        body: String::new(),
        path: String::new(),
    }
}

#[test]
fn cycles_are_found_where_there_are_any() {
    let acyclic = vec![force_on("a", &["b", "c"]), force_on("b", &["c"]), force_on("c", &[])];
    assert!(detect_cycles(&acyclic).is_empty());
    let cyclic = vec![force_on("a", &["b"]), force_on("b", &["c"]), force_on("c", &["b"])];
    let found = detect_cycles(&cyclic);
    assert_eq!(found.len(), 1);
    let mut members = found[0].ids.clone();
    members.sort();
    assert_eq!(members, vec!["b", "c"]);
}
