//! Finding the configuration file.
use vstd::prelude::*;
use crate::paths::{join, joined};
use crate::record::opt_view;
use crate::text::views;

verus! {

/// What there is in a directory: a `forge.toml`, and a `.git`.
pub struct Probe {
    pub dir: String,
    pub has_config: bool,
    pub has_git: bool,
}

/// What a [`Probe`] stands for.
#[verifier::ext_equal]
pub struct ProbeView {
    pub dir: Seq<char>,
    pub has_config: bool,
    pub has_git: bool,
}

impl View for Probe {
    type V = ProbeView;

    open spec fn view(&self) -> ProbeView {
        ProbeView { dir: self.dir@, has_config: self.has_config, has_git: self.has_git }
    }
}

/// The configuration file that a walk from the place `i` on finds. A directory
/// with a `.git` is the last that is looked into.
pub open spec fn walk(probes: Seq<ProbeView>, i: int) -> Option<Seq<char>>
    decreases probes.len() - i,
{
    if i < 0 || i >= probes.len() {
        None
    } else if probes[i].has_config {
        Some(joined(probes[i].dir, "forge.toml"@))
    } else if probes[i].has_git {
        None
    } else {
        walk(probes, i + 1)
    }
}

/// The configuration file: the one that was named, or else the one that the
/// environment names, or else the one that the walk upward finds.
pub open spec fn resolved(
    explicit: Option<Seq<char>>,
    env_value: Option<Seq<char>>,
    probes: Seq<ProbeView>,
) -> Option<Seq<char>> {
    match (explicit, env_value) {
        (Some(p), _) => Some(p),
        (None, Some(p)) => Some(p),
        (None, None) => walk(probes, 0),
    }
}

/// Finds the configuration file. `probes` are the working directory and the
/// directories above it, in turn. Nothing is found where there is no corpus yet.
pub fn resolve_config(explicit: Option<String>, env_value: Option<String>, probes: &Vec<Probe>) -> (r:
    Option<String>)
    ensures
        opt_view(r) == resolved(opt_view(explicit), opt_view(env_value), views(probes@)),
{
    if let Some(p) = explicit {
        return Some(p);
    }
    if let Some(p) = env_value {
        return Some(p);
    }
    let ghost all = views(probes@);
    for i in 0..probes.len()
        invariant
            all == views(probes@),
            explicit is None,
            env_value is None,
            walk(all, 0) == walk(all, i as int),
    {
        let probe = &probes[i];
        assert(all[i as int] == probe@);
        if probe.has_config {
            return Some(join(probe.dir.as_str(), "forge.toml"));
        }
        if probe.has_git {
            return None;
        }
    }
    None
}

/// The walk finds the nearest configuration file, and never looks beyond a
/// directory with a `.git`.
pub proof fn law_walk_stays_in_the_repository(probes: Seq<ProbeView>, i: int)
    requires
        0 <= i <= probes.len(),
    ensures
        match walk(probes, i) {
            Some(p) => exists|k: int|
                i <= k < probes.len() && probes[k].has_config && p == joined(
                    (#[trigger] probes[k]).dir,
                    "forge.toml"@,
                ) && forall|j: int|
                    i <= j < k ==> !(#[trigger] probes[j]).has_config && !probes[j].has_git,
            None => forall|k: int|
                i <= k < probes.len() && (#[trigger] probes[k]).has_config ==> exists|j: int|
                    i <= j < k && (#[trigger] probes[j]).has_git,
        },
    decreases probes.len() - i,
{
    if i < probes.len() {
        if probes[i].has_config {
            assert(probes[i].dir == probes[i].dir);
        } else if !probes[i].has_git {
            law_walk_stays_in_the_repository(probes, i + 1);
            if let Some(p) = walk(probes, i + 1) {
                let k = choose|k: int|
                    i + 1 <= k < probes.len() && probes[k].has_config && p == joined(
                        (#[trigger] probes[k]).dir,
                        "forge.toml"@,
                    ) && forall|j: int|
                        i + 1 <= j < k ==> !(#[trigger] probes[j]).has_config && !probes[j].has_git;
                assert(probes[k].dir == probes[k].dir);
            }
        } else {
            assert(probes[i].has_git);
        }
    }
}

/// A file that is named comes before one that the environment names, and both
/// before what a walk finds.
pub proof fn law_named_files_come_first(
    explicit: Option<Seq<char>>,
    env_value: Option<Seq<char>>,
    probes: Seq<ProbeView>,
    k: int,
)
    ensures
        explicit is Some ==> resolved(explicit, env_value, probes) == explicit,
        explicit is None && env_value is Some ==> resolved(explicit, env_value, probes)
            == env_value,
        explicit is None && env_value is None && 0 <= k < probes.len() && probes[k].has_config && (
        forall|j: int| 0 <= j < k ==> !(#[trigger] probes[j]).has_config && !probes[j].has_git)
            ==> resolved(explicit, env_value, probes) == Some(
            joined(probes[k].dir, "forge.toml"@),
        ),
        explicit is None && env_value is None && 0 <= k < probes.len() && probes[k].has_git && (
        forall|j: int| 0 <= j <= k ==> !(#[trigger] probes[j]).has_config) ==> resolved(
            explicit,
            env_value,
            probes,
        ) is None,
{
    if explicit is None && env_value is None && 0 <= k < probes.len() {
        law_walk_stays_in_the_repository(probes, 0);
        if let Some(p) = walk(probes, 0) {
            let m = choose|m: int|
                0 <= m < probes.len() && probes[m].has_config && p == joined(
                    (#[trigger] probes[m]).dir,
                    "forge.toml"@,
                ) && forall|j: int|
                    0 <= j < m ==> !(#[trigger] probes[j]).has_config && !probes[j].has_git;
            if m < k {
                assert(probes[m].has_config);
            }
            if k < m {
                assert(!probes[k].has_config && !probes[k].has_git);
            }
        } else if probes[k].has_config {
            let j = choose|j: int| 0 <= j < k && (#[trigger] probes[j]).has_git;
            assert(probes[j].has_git);
        }
    }
}

} // verus!
