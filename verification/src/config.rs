//! The configuration of a corpus.
use vstd::prelude::*;
use crate::paths::{as_native, join, joined, native, place, placed, slash, slashed, System};
use crate::record::{copy_opt, opt_view};
use crate::score::Double;
use crate::text::{copy_texts, join2, views};

verus! {

/// The thresholds of similarity between forces.
#[derive(Debug, Clone, Copy, PartialEq, Eq, Structural)]
pub struct Dedup {
    /// From here on an existing force is taken in place of a new one.
    pub reuse: Double,
    /// From here on an existing force is pointed out.
    pub warn: Double,
}

/// The choice of embedding model.
#[derive(Debug)]
pub struct Embedding {
    pub model: String,
}

/// How the program logs.
#[derive(Debug)]
pub struct Log {
    pub level: String,
    pub format: String,
    pub file: Option<String>,
}

/// The configuration of a corpus.
#[derive(Debug)]
pub struct Config {
    /// The directories that hold the records.
    pub roots: Vec<String>,
    pub dedup: Dedup,
    pub embedding: Embedding,
    /// Where models and vectors are kept.
    pub cache_dir: String,
    /// Where new records are written.
    pub write_dir: String,
    pub log: Log,
}

/// What a [`Config`] stands for.
#[verifier::ext_equal]
pub struct ConfigView {
    pub roots: Seq<Seq<char>>,
    pub dedup: Dedup,
    pub model: Seq<char>,
    pub cache_dir: Seq<char>,
    pub write_dir: Seq<char>,
    pub log_level: Seq<char>,
    pub log_format: Seq<char>,
    pub log_file: Option<Seq<char>>,
}

impl View for Config {
    type V = ConfigView;

    open spec fn view(&self) -> ConfigView {
        ConfigView {
            roots: views(self.roots@),
            dedup: self.dedup,
            model: self.embedding.model@,
            cache_dir: self.cache_dir@,
            write_dir: self.write_dir@,
            log_level: self.log.level@,
            log_format: self.log.format@,
            log_file: opt_view(self.log.file),
        }
    }
}

/// Why there is no configuration.
#[derive(Debug)]
pub enum ConfigError {
    /// The file could not be read.
    Io(String),
    /// The file is not well formed.
    Parse(String),
    /// The file names no roots.
    MissingRoots,
    /// Anything else.
    Other(String),
}

/// What a [`ConfigError`] stands for.
pub enum ConfigErrorView {
    Io(Seq<char>),
    Parse(Seq<char>),
    MissingRoots,
    Other(Seq<char>),
}

impl View for ConfigError {
    type V = ConfigErrorView;

    open spec fn view(&self) -> ConfigErrorView {
        match self {
            ConfigError::Io(m) => ConfigErrorView::Io(m@),
            ConfigError::Parse(m) => ConfigErrorView::Parse(m@),
            ConfigError::MissingRoots => ConfigErrorView::MissingRoots,
            ConfigError::Other(m) => ConfigErrorView::Other(m@),
        }
    }
}

impl ConfigErrorView {
    /// The message of the error.
    pub open spec fn message(self) -> Seq<char> {
        match self {
            ConfigErrorView::Io(m) => "io error: "@ + m,
            ConfigErrorView::Parse(m) => "parse error: "@ + m,
            ConfigErrorView::MissingRoots => "missing required field: roots"@,
            ConfigErrorView::Other(m) => m,
        }
    }
}

impl ConfigError {
    /// The message of the error.
    pub fn message(&self) -> (r: String)
        ensures
            r@ == self@.message(),
    {
        match self {
            ConfigError::Io(m) => join2("io error: ", m.as_str()),
            ConfigError::Parse(m) => join2("parse error: ", m.as_str()),
            ConfigError::MissingRoots => "missing required field: roots".to_string(),
            ConfigError::Other(m) => m.clone(),
        }
    }
}

/// The fields of a configuration file. What the file leaves out is `None`.
pub struct RawConfig {
    pub roots: Option<Vec<String>>,
    pub reuse: Option<Double>,
    pub warn: Option<Double>,
    pub model: Option<String>,
    pub cache_dir: Option<String>,
    pub write_dir: Option<String>,
    pub log_level: Option<String>,
    pub log_format: Option<String>,
    pub log_file: Option<String>,
}

/// What a [`RawConfig`] stands for.
#[verifier::ext_equal]
pub struct RawConfigView {
    pub roots: Option<Seq<Seq<char>>>,
    pub reuse: Option<Double>,
    pub warn: Option<Double>,
    pub model: Option<Seq<char>>,
    pub cache_dir: Option<Seq<char>>,
    pub write_dir: Option<Seq<char>>,
    pub log_level: Option<Seq<char>>,
    pub log_format: Option<Seq<char>>,
    pub log_file: Option<Seq<char>>,
}

impl View for RawConfig {
    type V = RawConfigView;

    open spec fn view(&self) -> RawConfigView {
        RawConfigView {
            roots: match self.roots {
                Some(v) => Some(views(v@)),
                None => None,
            },
            reuse: self.reuse,
            warn: self.warn,
            model: opt_view(self.model),
            cache_dir: opt_view(self.cache_dir),
            write_dir: opt_view(self.write_dir),
            log_level: opt_view(self.log_level),
            log_format: opt_view(self.log_format),
            log_file: opt_view(self.log_file),
        }
    }
}

/// A value, or what stands in for it.
pub open spec fn value_or<A>(o: Option<A>, other: A) -> A {
    match o {
        Some(x) => x,
        None => other,
    }
}

/// The similarity from which a force is reused unless the file says otherwise: 0.90.
pub const DEFAULT_REUSE: u64 = 0x3fec_cccc_cccc_cccd;

/// The similarity from which a force is pointed out unless the file says otherwise: 0.75.
pub const DEFAULT_WARN: u64 = 0x3fe8_0000_0000_0000;

/// The directory for models and vectors below the home directory, which is
/// the first that is known of the two given, or else the current directory.
pub open spec fn home_cache(
    system: System,
    home: Option<Seq<char>>,
    profile: Option<Seq<char>>,
) -> Seq<char> {
    let base = slashed(system, value_or(home, value_or(profile, "."@)));
    joined(joined(base, ".cache"@), "forge"@)
}

/// The configuration that the fields of a file in the directory `dir` make.
/// Paths are taken from that directory, by the rules of the system.
pub open spec fn configured(
    system: System,
    raw: RawConfigView,
    dir: Seq<char>,
    cache: Seq<char>,
) -> Result<ConfigView, ConfigErrorView> {
    if raw.roots is None || raw.roots->0.len() == 0 {
        Err(ConfigErrorView::MissingRoots)
    } else {
        let roots = raw.roots->0.map_values(|r: Seq<char>| placed(system, dir, r));
        Ok(
            ConfigView {
                roots,
                dedup: Dedup {
                    reuse: value_or(raw.reuse, Double { bits: DEFAULT_REUSE }),
                    warn: value_or(raw.warn, Double { bits: DEFAULT_WARN }),
                },
                model: value_or(raw.model, "intfloat/multilingual-e5-small"@),
                cache_dir: match raw.cache_dir {
                    Some(d) => placed(system, dir, d),
                    None => cache,
                },
                write_dir: match raw.write_dir {
                    Some(d) => placed(system, dir, d),
                    None => roots[0],
                },
                log_level: value_or(raw.log_level, "info"@),
                log_format: value_or(raw.log_format, "compact"@),
                log_file: raw.log_file,
            },
        )
    }
}

/// The first of the roots, from `i` on, that does not exist.
pub open spec fn first_missing(roots: Seq<Seq<char>>, there: Seq<bool>, i: int) -> Option<Seq<char>>
    decreases roots.len() - i,
{
    if i < 0 || i >= roots.len() {
        None
    } else if !there[i] {
        Some(roots[i])
    } else {
        first_missing(roots, there, i + 1)
    }
}

/// A configuration, given which of its roots exist: there is none where a root
/// does not.
pub open spec fn with_roots(system: System, c: ConfigView, there: Seq<bool>) -> Result<
    ConfigView,
    ConfigErrorView,
> {
    match first_missing(c.roots, there, 0) {
        Some(root) => Err(
            ConfigErrorView::Other("root directory does not exist: "@ + as_native(system, root)),
        ),
        None => Ok(c),
    }
}

/// Whether `there` may be what `is_there` says of each of the roots.
pub open spec fn are_there<D: Fn(&str) -> bool>(
    is_there: D,
    roots: Seq<Seq<char>>,
    there: Seq<bool>,
) -> bool {
    &&& there.len() == roots.len()
    &&& forall|i: int| 0 <= i < roots.len() ==> says(is_there, roots[i], #[trigger] there[i])
}

/// Whether `answer` may be what `is_there` says of a path.
pub open spec fn says<D: Fn(&str) -> bool>(is_there: D, path: Seq<char>, answer: bool) -> bool {
    exists|p: &str| p@ == path && #[trigger] call_ensures(is_there, (p,), answer)
}

/// The view of the outcome of reading a configuration.
pub open spec fn outcome(r: Result<Config, ConfigError>) -> Result<ConfigView, ConfigErrorView> {
    match r {
        Ok(c) => Ok(c@),
        Err(e) => Err(e@),
    }
}

fn default_model() -> (r: String)
    ensures
        r@ == "intfloat/multilingual-e5-small"@,
{
    "intfloat/multilingual-e5-small".to_string()
}

fn or_text(o: Option<String>, other: &str) -> (r: String)
    ensures
        r@ == value_or(opt_view(o), other@),
{
    match o {
        Some(s) => s,
        None => other.to_string(),
    }
}

/// The directory for models and vectors below the home directory.
pub fn default_cache_dir(system: System, home: Option<String>, profile: Option<String>) -> (r:
    String)
    ensures
        r@ == home_cache(system, opt_view(home), opt_view(profile)),
{
    let base = match home {
        Some(h) => h,
        None => or_text(profile, "."),
    };
    let base = slash(system, base.as_str());
    join(join(base.as_str(), ".cache").as_str(), "forge")
}

impl Config {
    /// Makes the configuration of the fields of a file.
    pub fn from_fields(system: System, raw: RawConfig, dir: &str, cache: String) -> (r: Result<
        Config,
        ConfigError,
    >)
        ensures
            outcome(r) == configured(system, raw@, dir@, cache@),
    {
        let ghost fields = raw@;
        let names = match raw.roots {
            Some(v) => v,
            None => {
                return Err(ConfigError::MissingRoots);
            },
        };
        assert(fields.roots->0.len() == names.len());
        if names.len() == 0 {
            return Err(ConfigError::MissingRoots);
        }
        let ghost ns = views(names@);
        let mut roots: Vec<String> = Vec::new();
        for i in 0..names.len()
            invariant
                ns == views(names@),
                roots.len() == i,
                forall|j: int| 0 <= j < i ==> (#[trigger] roots@[j])@ == placed(system, dir@, ns[j]),
        {
            assert(ns[i as int] == names@[i as int]@);
            roots.push(place(system, dir, names[i].as_str()));
        }
        assert(views(roots@) =~= ns.map_values(|r: Seq<char>| placed(system, dir@, r)));
        let write_dir = match raw.write_dir {
            Some(d) => place(system, dir, d.as_str()),
            None => roots[0].clone(),
        };
        let cache_dir = match raw.cache_dir {
            Some(d) => place(system, dir, d.as_str()),
            None => cache,
        };
        let model = match raw.model {
            Some(m) => m,
            None => default_model(),
        };
        let reuse = match raw.reuse {
            Some(s) => s,
            None => Double { bits: DEFAULT_REUSE },
        };
        let warn = match raw.warn {
            Some(s) => s,
            None => Double { bits: DEFAULT_WARN },
        };
        Ok(
            Config {
                roots,
                dedup: Dedup { reuse, warn },
                embedding: Embedding { model },
                cache_dir,
                write_dir,
                log: Log {
                    level: or_text(raw.log_level, "info"),
                    format: or_text(raw.log_format, "compact"),
                    file: raw.log_file,
                },
            },
        )
    }

    /// Reads the text of a configuration file. `parse` turns the text into its
    /// fields, or says why it cannot.
    pub fn from_str<F: Fn(&str) -> Result<RawConfig, String>>(
        system: System,
        text: &str,
        parse: F,
        dir: &str,
        cache: String,
    ) -> (r: Result<Config, ConfigError>)
        requires
            call_requires(parse, (text,)),
        ensures
            exists|parsed: Result<RawConfig, String>| #[trigger]
                call_ensures(parse, (text,), parsed) && match parsed {
                    Ok(raw) => outcome(r) == configured(system, raw@, dir@, cache@),
                    Err(m) => outcome(r) == Err::<ConfigView, ConfigErrorView>(
                        ConfigErrorView::Parse(m@),
                    ),
                },
    {
        let parsed = parse(text);
        assert(call_ensures(parse, (text,), parsed));
        match parsed {
            Ok(raw) => Config::from_fields(system, raw, dir, cache),
            Err(m) => Err(ConfigError::Parse(m)),
        }
    }

    /// Takes a configuration whose roots all exist. `there` says of each root
    /// whether it does.
    pub fn require_roots(self, system: System, there: &Vec<bool>) -> (r: Result<Config, ConfigError>)
        requires
            there.len() == self.roots.len(),
        ensures
            outcome(r) == with_roots(system, self@, there@),
    {
        let ghost roots = self@.roots;
        for i in 0..self.roots.len()
            invariant
                roots == views(self.roots@),
                there.len() == self.roots.len(),
                first_missing(roots, there@, 0) == first_missing(roots, there@, i as int),
        {
            assert(roots[i as int] == self.roots@[i as int]@);
            if !there[i] {
                let root = native(system, self.roots[i].as_str());
                return Err(
                    ConfigError::Other(join2("root directory does not exist: ", root.as_str())),
                );
            }
        }
        Ok(self)
    }

    /// Loads a configuration, given what reading its file gave and the
    /// directory of the file, where it has one. `is_there` says of a root
    /// whether it exists; loading fails where one does not.
    pub fn load<F: Fn(&str) -> Result<RawConfig, String>, D: Fn(&str) -> bool>(
        system: System,
        contents: Result<String, String>,
        dir: Option<String>,
        parse: F,
        is_there: &D,
        cache: String,
    ) -> (r: Result<Config, ConfigError>)
        requires
            forall|text: &str| call_requires(parse, (text,)),
            forall|root: &str| call_requires(*is_there, (root,)),
        ensures
            match (contents, dir) {
                (Err(m), _) => outcome(r) == Err::<ConfigView, ConfigErrorView>(
                    ConfigErrorView::Io(m@),
                ),
                (Ok(_), None) => outcome(r) == Err::<ConfigView, ConfigErrorView>(
                    ConfigErrorView::Other("config file has no parent directory"@),
                ),
                (Ok(text), Some(d)) => exists|t: &str, parsed: Result<RawConfig, String>| #[trigger]
                    call_ensures(parse, (t,), parsed) && t@ == text@ && match parsed {
                        Ok(raw) => match configured(system, raw@, d@, cache@) {
                            Ok(c) => exists|there: Seq<bool>| #[trigger]
                                are_there(*is_there, c.roots, there) && outcome(r) == with_roots(
                                    system,
                                    c,
                                    there,
                                ),
                            Err(e) => outcome(r) == Err::<ConfigView, ConfigErrorView>(e),
                        },
                        Err(m) => outcome(r) == Err::<ConfigView, ConfigErrorView>(
                            ConfigErrorView::Parse(m@),
                        ),
                    },
            },
    {
        let text = match contents {
            Ok(t) => t,
            Err(m) => {
                return Err(ConfigError::Io(m));
            },
        };
        let dir = match dir {
            Some(d) => d,
            None => {
                return Err(ConfigError::Other("config file has no parent directory".to_string()));
            },
        };
        let cfg = match Config::from_str(system, text.as_str(), parse, dir.as_str(), cache) {
            Ok(c) => c,
            Err(e) => {
                return Err(e);
            },
        };
        let ghost roots = cfg@.roots;
        let mut there: Vec<bool> = Vec::new();
        for i in 0..cfg.roots.len()
            invariant
                forall|root: &str| call_requires(*is_there, (root,)),
                roots == views(cfg.roots@),
                there.len() == i,
                forall|j: int| 0 <= j < i ==> says(*is_there, roots[j], #[trigger] there@[j]),
        {
            assert(roots[i as int] == cfg.roots@[i as int]@);
            let root = cfg.roots[i].as_str();
            let answer = is_there(root);
            assert(call_ensures(*is_there, (root,), answer));
            there.push(answer);
        }
        assert(roots.len() == cfg.roots@.len());
        assert(are_there(*is_there, roots, there@));
        cfg.require_roots(system, &there)
    }
}

/// A configuration is taken exactly where each of its roots exists.
pub proof fn law_every_root_must_exist(system: System, c: ConfigView, there: Seq<bool>)
    requires
        there.len() == c.roots.len(),
    ensures
        with_roots(system, c, there) is Ok <==> forall|i: int| 0 <= i < there.len() ==> #[trigger] there[i],
{
    lemma_first_missing(c.roots, there, 0);
}

proof fn lemma_first_missing(roots: Seq<Seq<char>>, there: Seq<bool>, i: int)
    requires
        there.len() == roots.len(),
        0 <= i <= roots.len(),
    ensures
        first_missing(roots, there, i) is None <==> forall|j: int|
            i <= j < there.len() ==> #[trigger] there[j],
    decreases roots.len() - i,
{
    if i < roots.len() {
        lemma_first_missing(roots, there, i + 1);
        assert(first_missing(roots, there, i) is Some <== !there[i]);
    }
}

impl Clone for Config {
    fn clone(&self) -> (r: Self)
        ensures
            r@ == self@,
    {
        Config {
            roots: copy_texts(&self.roots),
            dedup: self.dedup,
            embedding: Embedding { model: self.embedding.model.clone() },
            cache_dir: self.cache_dir.clone(),
            write_dir: self.write_dir.clone(),
            log: Log {
                level: self.log.level.clone(),
                format: self.log.format.clone(),
                file: copy_opt(&self.log.file),
            },
        }
    }
}

/// A configuration has what its file gives, with paths taken from the directory
/// of the file, and stands in for what the file leaves out: new records are
/// written to the first root, and the thresholds, the model and the way to log
/// are those that are known to work. Without roots there is none.
pub proof fn law_configurations_hold_what_is_given(
    system: System,
    raw: RawConfigView,
    dir: Seq<char>,
    cache: Seq<char>,
)
    ensures
        ({
            let r = configured(system, raw, dir, cache);
            let c = r->Ok_0;
            &&& r is Err <==> raw.roots is None || raw.roots->0.len() == 0
            &&& r is Err ==> r->Err_0 is MissingRoots
            &&& r is Ok ==> {
                &&& c.roots.len() == raw.roots->0.len()
                &&& forall|i: int|
                    0 <= i < c.roots.len() ==> #[trigger] c.roots[i] == placed(
                        system,
                        dir,
                        raw.roots->0[i],
                    )
                &&& match raw.write_dir {
                    Some(d) => c.write_dir == placed(system, dir, d),
                    None => c.write_dir == placed(system, dir, raw.roots->0[0]),
                }
                &&& match raw.cache_dir {
                    Some(d) => c.cache_dir == placed(system, dir, d),
                    None => c.cache_dir == cache,
                }
                &&& match raw.reuse {
                    Some(x) => c.dedup.reuse == x,
                    None => c.dedup.reuse.bits == 0x3fec_cccc_cccc_cccd,
                }
                &&& match raw.warn {
                    Some(x) => c.dedup.warn == x,
                    None => c.dedup.warn.bits == 0x3fe8_0000_0000_0000,
                }
                &&& match raw.model {
                    Some(m) => c.model == m,
                    None => c.model == "intfloat/multilingual-e5-small"@,
                }
                &&& match raw.log_level {
                    Some(m) => c.log_level == m,
                    None => c.log_level == "info"@,
                }
                &&& match raw.log_format {
                    Some(m) => c.log_format == m,
                    None => c.log_format == "compact"@,
                }
                &&& c.log_file == raw.log_file
            }
        }),
{
}

/// The first root that does not exist is the one that is told of; where all
/// exist, the configuration is taken as it is.
pub proof fn law_the_first_missing_root_is_told(
    system: System,
    c: ConfigView,
    there: Seq<bool>,
    i: int,
)
    requires
        there.len() == c.roots.len(),
        0 <= i < there.len(),
        !there[i],
        forall|j: int| 0 <= j < i ==> #[trigger] there[j],
    ensures
        with_roots(system, c, there) == Err::<ConfigView, ConfigErrorView>(
            ConfigErrorView::Other("root directory does not exist: "@ + as_native(system, c.roots[i])),
        ),
{
    lemma_missing_at(c.roots, there, 0, i);
}

proof fn lemma_missing_at(roots: Seq<Seq<char>>, there: Seq<bool>, from: int, i: int)
    requires
        there.len() == roots.len(),
        0 <= from <= i < there.len(),
        !there[i],
        forall|j: int| from <= j < i ==> #[trigger] there[j],
    ensures
        first_missing(roots, there, from) == Some(roots[i]),
    decreases i - from,
{
    if from < i {
        assert(there[from]);
        lemma_missing_at(roots, there, from + 1, i);
    }
}

/// A configuration whose roots all exist is taken as it is.
pub proof fn law_configurations_are_taken_unchanged(
    system: System,
    c: ConfigView,
    there: Seq<bool>,
)
    requires
        there.len() == c.roots.len(),
        forall|j: int| 0 <= j < there.len() ==> #[trigger] there[j],
    ensures
        with_roots(system, c, there) == Ok::<ConfigView, ConfigErrorView>(c),
{
    lemma_first_missing(c.roots, there, 0);
}

/// Models and vectors are kept below the home directory where it is known, or
/// else below the profile, or else below the current directory.
pub proof fn law_caches_are_below_the_home(
    system: System,
    home: Option<Seq<char>>,
    profile: Option<Seq<char>>,
)
    ensures
        ({
            let base = if home is Some {
                home->0
            } else if profile is Some {
                profile->0
            } else {
                "."@
            };
            home_cache(system, home, profile) == joined(
                joined(slashed(system, base), ".cache"@),
                "forge"@,
            )
        }),
{
}

/// A configuration that is taken after its roots were looked for has each of
/// them said to be there.
pub proof fn law_roots_that_are_taken_were_found<D: Fn(&str) -> bool>(
    system: System,
    c: ConfigView,
    is_there: D,
    there: Seq<bool>,
    i: int,
)
    requires
        are_there(is_there, c.roots, there),
        with_roots(system, c, there) is Ok,
        0 <= i < c.roots.len(),
    ensures
        exists|p: &str| p@ == c.roots[i] && #[trigger] call_ensures(is_there, (p,), true),
{
    law_every_root_must_exist(system, c, there);
    assert(there[i]);
    assert(says(is_there, c.roots[i], there[i]));
}

} // verus!
