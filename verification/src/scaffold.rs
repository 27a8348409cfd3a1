//! Setting up a new corpus.
use vstd::prelude::*;
use crate::paths::{as_native, join, joined, native, System};
use crate::text::{join2, views};

verus! {

/// The text of a new configuration file.
pub open spec fn template() -> Seq<char> {
    "roots = [\"decisions\", \"forces\"]\n\n[dedup]\nreuse = 0.90  # cosine threshold: silently reuse existing force\nwarn = 0.75   # cosine threshold: warn about near-duplicate\n\n[embedding]\n# \"fake-bucket\" is a deterministic test embedder. The real model below\n# downloads ~120MB from Hugging Face on first run, then uses the local cache.\nmodel = \"intfloat/multilingual-e5-small\"\n"@
}

/// The text of a new configuration file.
pub fn forge_toml_template() -> (r: &'static str)
    ensures
        r@ == template(),
{
    "roots = [\"decisions\", \"forces\"]\n\n[dedup]\nreuse = 0.90  # cosine threshold: silently reuse existing force\nwarn = 0.75   # cosine threshold: warn about near-duplicate\n\n[embedding]\n# \"fake-bucket\" is a deterministic test embedder. The real model below\n# downloads ~120MB from Hugging Face on first run, then uses the local cache.\nmodel = \"intfloat/multilingual-e5-small\"\n"
}

/// The directories and the file of a new corpus.
#[derive(Debug)]
pub struct Scaffold {
    /// The directories that are made, in turn.
    pub dirs: Vec<String>,
    /// The configuration file that is written last.
    pub config_path: String,
    pub text: String,
}

/// What a [`Scaffold`] stands for.
#[verifier::ext_equal]
pub struct ScaffoldView {
    pub dirs: Seq<Seq<char>>,
    pub config_path: Seq<char>,
    pub text: Seq<char>,
}

impl View for Scaffold {
    type V = ScaffoldView;

    open spec fn view(&self) -> ScaffoldView {
        ScaffoldView { dirs: views(self.dirs@), config_path: self.config_path@, text: self.text@ }
    }
}

/// The configuration file of a directory.
pub open spec fn config_in(dir: Seq<char>) -> Seq<char> {
    joined(dir, "forge.toml"@)
}

/// The new corpus in a directory.
pub open spec fn scaffold_of(dir: Seq<char>) -> ScaffoldView {
    ScaffoldView {
        dirs: seq![joined(dir, "decisions"@), joined(dir, "forces"@)],
        config_path: config_in(dir),
        text: template(),
    }
}

fn plan(dir: &str) -> (r: Scaffold)
    ensures
        r@ == scaffold_of(dir@),
{
    let mut dirs: Vec<String> = Vec::new();
    dirs.push(join(dir, "decisions"));
    dirs.push(join(dir, "forces"));
    assert(views(dirs@) =~= seq![joined(dir@, "decisions"@), joined(dir@, "forces"@)]);
    let config_path = join(dir, "forge.toml");
    Scaffold { dirs, config_path, text: forge_toml_template().to_string() }
}

/// Plans a new corpus in a directory. Where the directory has a configuration
/// file, nothing is overwritten, and the message names the file as the system
/// writes it.
pub fn init(system: System, dir: &str, exists: bool) -> (r: Result<Scaffold, String>)
    ensures
        match r {
            Ok(s) => !exists && s@ == scaffold_of(dir@),
            Err(m) => exists && m@ == as_native(system, config_in(dir@))
                + " already exists; refusing to overwrite"@,
        },
{
    if exists {
        let config_path = native(system, join(dir, "forge.toml").as_str());
        return Err(join2(config_path.as_str(), " already exists; refusing to overwrite"));
    }
    Ok(plan(dir))
}

/// A corpus that is to be loaded.
#[derive(Debug)]
pub enum Corpus {
    /// There is one, with this configuration file.
    There(String),
    /// There is none, and this is to be made first.
    New(Scaffold),
}

/// Makes sure that a directory has a corpus: the one that is there is left
/// untouched, and otherwise a new one is planned.
pub fn ensure_corpus(dir: &str, exists: bool) -> (r: Corpus)
    ensures
        match r {
            Corpus::There(path) => exists && path@ == config_in(dir@),
            Corpus::New(s) => !exists && s@ == scaffold_of(dir@),
        },
{
    if exists {
        Corpus::There(join(dir, "forge.toml"))
    } else {
        Corpus::New(plan(dir))
    }
}

/// A new corpus has one directory for decisions, one for forces, and its
/// configuration file beside them, which names these two as roots.
pub proof fn law_new_corpora_have_both_roots(dir: Seq<char>)
    ensures
        scaffold_of(dir).dirs.len() == 2,
        scaffold_of(dir).dirs[0] == joined(dir, "decisions"@),
        scaffold_of(dir).dirs[1] == joined(dir, "forces"@),
        scaffold_of(dir).config_path == joined(dir, "forge.toml"@),
        scaffold_of(dir).text.len() > 0,
{
    reveal_strlit(
        "roots = [\"decisions\", \"forces\"]\n\n[dedup]\nreuse = 0.90  # cosine threshold: silently reuse existing force\nwarn = 0.75   # cosine threshold: warn about near-duplicate\n\n[embedding]\n# \"fake-bucket\" is a deterministic test embedder. The real model below\n# downloads ~120MB from Hugging Face on first run, then uses the local cache.\nmodel = \"intfloat/multilingual-e5-small\"\n",
    );
}

} // verus!
