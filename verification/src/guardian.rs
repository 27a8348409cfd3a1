//! The guardian: composing new records, and deciding what is written.
use vstd::prelude::*;
use crate::config::Config;
use crate::embed::cache::VectorCache;
use crate::embed::{EmbedError, Embedder};
use crate::graph::{distinct_ids, Graph, GraphView};
use crate::ids::{base_id, free_id, generate_id, law_new_ids_are_free, slug};
use crate::linker::Diagnostic;
use crate::recall::{
    force_scores_of, has_vector, law_near_matches_leave_no_force_out, lemma_near_same, near,
    near_matches, Hit, HitView,
};
use crate::record::{
    iso_day, log_days, valid_log, Decision, DecisionStatus, DecisionView, Force, ForceStatus,
    ForceView, RawRecord, StatusEntry, StatusEntryView,
};
use crate::score::{Double, Single, Vector};
use crate::snapshot::{
    builds, law_built_is_sound, names_model, BuildError, Snapshot, SourceFile,
};
use crate::text::{copy_texts, join2, lemma_push_contains, views};

verus! {

/// A force that a new decision rests on.
#[derive(Debug)]
pub enum ForceInput {
    /// A force that is to be made.
    New {
        title: String,
        body: String,
        /// Whether it is new even where another resembles it.
        force_new: bool,
    },
    /// A force that exists.
    Existing { id: String },
}

/// What a [`ForceInput`] stands for.
#[verifier::ext_equal]
pub enum ForceInputView {
    New { title: Seq<char>, body: Seq<char>, force_new: bool },
    Existing { id: Seq<char> },
}

impl View for ForceInput {
    type V = ForceInputView;

    open spec fn view(&self) -> ForceInputView {
        match self {
            ForceInput::New { title, body, force_new } => ForceInputView::New {
                title: title@,
                body: body@,
                force_new: *force_new,
            },
            ForceInput::Existing { id } => ForceInputView::Existing { id: id@ },
        }
    }
}

impl Clone for ForceInput {
    fn clone(&self) -> (r: Self)
        ensures
            r@ == self@,
    {
        match self {
            ForceInput::New { title, body, force_new } => ForceInput::New {
                title: title.clone(),
                body: body.clone(),
                force_new: *force_new,
            },
            ForceInput::Existing { id } => ForceInput::Existing { id: id.clone() },
        }
    }
}

/// A decision that is proposed.
#[derive(Debug)]
pub struct ProposeInput {
    pub title: String,
    pub body: String,
    pub forces: Vec<ForceInput>,
    pub supersedes: Vec<String>,
    pub relates: Vec<String>,
    pub tags: Vec<String>,
}

/// What a [`ProposeInput`] stands for.
#[verifier::ext_equal]
pub struct ProposeInputView {
    pub title: Seq<char>,
    pub body: Seq<char>,
    pub forces: Seq<ForceInputView>,
    pub supersedes: Seq<Seq<char>>,
    pub relates: Seq<Seq<char>>,
    pub tags: Seq<Seq<char>>,
}

impl View for ProposeInput {
    type V = ProposeInputView;

    open spec fn view(&self) -> ProposeInputView {
        ProposeInputView {
            title: self.title@,
            body: self.body@,
            forces: views(self.forces@),
            supersedes: views(self.supersedes@),
            relates: views(self.relates@),
            tags: views(self.tags@),
        }
    }
}

fn copy_forces(forces: &Vec<ForceInput>) -> (r: Vec<ForceInput>)
    ensures
        views(r@) == views(forces@),
{
    let mut out: Vec<ForceInput> = Vec::new();
    for i in 0..forces.len()
        invariant
            out.len() == i,
            forall|j: int| 0 <= j < i ==> (#[trigger] out@[j])@ == forces@[j]@,
    {
        out.push(forces[i].clone());
    }
    assert(views(out@) =~= views(forces@));
    out
}

impl Clone for ProposeInput {
    fn clone(&self) -> (r: Self)
        ensures
            r@ == self@,
    {
        ProposeInput {
            title: self.title.clone(),
            body: self.body.clone(),
            forces: copy_forces(&self.forces),
            supersedes: copy_texts(&self.supersedes),
            relates: copy_texts(&self.relates),
            tags: copy_texts(&self.tags),
        }
    }
}

/// The forces that are nearly the same as a new one.
#[derive(Debug)]
pub struct Near {
    /// The id of the new force.
    pub force_id: String,
    pub hits: Vec<Hit>,
}

/// What a [`Near`] stands for.
#[verifier::ext_equal]
pub struct NearView {
    pub force_id: Seq<char>,
    pub hits: Seq<HitView>,
}

impl View for Near {
    type V = NearView;

    open spec fn view(&self) -> NearView {
        NearView { force_id: self.force_id@, hits: views(self.hits@) }
    }
}

/// What a proposal would make.
#[derive(Debug)]
pub struct Proposed {
    pub decision: Decision,
    pub new_forces: Vec<Force>,
    pub problems: Vec<String>,
    pub near_matches: Vec<Near>,
    pub input: ProposeInput,
}

/// What a [`Proposed`] stands for.
#[verifier::ext_equal]
pub struct ProposedView {
    pub decision: DecisionView,
    pub new_forces: Seq<ForceView>,
    pub problems: Seq<Seq<char>>,
    pub near_matches: Seq<NearView>,
    pub input: ProposeInputView,
}

impl View for Proposed {
    type V = ProposedView;

    open spec fn view(&self) -> ProposedView {
        ProposedView {
            decision: self.decision@,
            new_forces: views(self.new_forces@),
            problems: views(self.problems@),
            near_matches: views(self.near_matches@),
            input: self.input@,
        }
    }
}

/// The day on which it is, in UTC: `chrono::Utc::now` written as `%Y-%m-%d`.
/// What is written so is read as a date.
#[verifier::external_body]
pub fn today_iso() -> (r: String)
    ensures
        iso_day(r@) is Some,
{
    chrono::Utc::now().format("%Y-%m-%d").to_string()
}

/// A force that is made: it holds from today on, and rests on nothing.
pub open spec fn new_force(id: Seq<char>, title: Seq<char>, body: Seq<char>, today: Seq<char>) -> ForceView {
    ForceView {
        id,
        title,
        depends_on: Seq::empty(),
        status_log: seq![StatusEntryView { status: ForceStatus::Holds, since: today }],
        superseded_by: None,
        tags: Seq::empty(),
        body,
        path: Seq::empty(),
    }
}

/// The titles of the forces that are to be made, among the first `n`.
pub open spec fn new_titles(forces: Seq<ForceInputView>, n: int) -> Seq<Seq<char>>
    decreases n,
{
    if n <= 0 {
        Seq::empty()
    } else {
        let before = new_titles(forces, n - 1);
        match forces[n - 1] {
            ForceInputView::New { title, .. } => before.push(title),
            ForceInputView::Existing { .. } => before,
        }
    }
}

/// The id that a new force gets.
pub open spec fn force_id(g: GraphView, title: Seq<char>) -> Seq<char> {
    free_id(g, Seq::empty(), base_id("f"@, title))
}

/// What is wrong with the first `n` forces: ids that no record has.
pub open spec fn force_problems(g: GraphView, forces: Seq<ForceInputView>, n: int) -> Seq<Seq<char>>
    decreases n,
{
    if n <= 0 {
        Seq::empty()
    } else {
        let before = force_problems(g, forces, n - 1);
        match forces[n - 1] {
            ForceInputView::Existing { id } => if g.lookup(id) is None {
                before.push("unknown force id "@ + id)
            } else {
                before
            },
            ForceInputView::New { .. } => before,
        }
    }
}

/// What the decision cites of the first `n` forces: those that exist, and
/// those that are to be made.
pub open spec fn force_cites(g: GraphView, forces: Seq<ForceInputView>, n: int) -> Seq<Seq<char>>
    decreases n,
{
    if n <= 0 {
        Seq::empty()
    } else {
        let before = force_cites(g, forces, n - 1);
        match forces[n - 1] {
            ForceInputView::Existing { id } => if g.lookup(id) is None {
                before
            } else {
                before.push(id)
            },
            ForceInputView::New { title, .. } => before.push(force_id(g, title)),
        }
    }
}

/// The forces that are made of the first `n`.
pub open spec fn made_forces(
    g: GraphView,
    forces: Seq<ForceInputView>,
    today: Seq<char>,
    n: int,
) -> Seq<ForceView>
    decreases n,
{
    if n <= 0 {
        Seq::empty()
    } else {
        let before = made_forces(g, forces, today, n - 1);
        match forces[n - 1] {
            ForceInputView::New { title, body, .. } => before.push(
                new_force(force_id(g, title), title, body, today),
            ),
            ForceInputView::Existing { .. } => before,
        }
    }
}

/// The near matches of the new forces, given the hits for each.
pub open spec fn nears(g: GraphView, titles: Seq<Seq<char>>, hits: Seq<Seq<HitView>>) -> Seq<NearView> {
    Seq::new(titles.len(), |i: int| NearView { force_id: force_id(g, titles[i]), hits: hits[i] })
}

/// What a proposal makes on a given day, given the near matches of each new
/// force.
pub open spec fn composed(
    g: GraphView,
    input: ProposeInputView,
    hits: Seq<Seq<HitView>>,
    today: Seq<char>,
) -> ProposedView {
    let n = input.forces.len() as int;
    ProposedView {
        decision: DecisionView {
            id: free_id(g, Seq::empty(), base_id("d"@, input.title)),
            title: input.title,
            status: DecisionStatus::Accepted,
            date: today,
            cites: force_cites(g, input.forces, n),
            supersedes: input.supersedes,
            relates: input.relates,
            anchors: Seq::empty(),
            tags: input.tags,
            body: input.body,
            path: Seq::empty(),
        },
        new_forces: made_forces(g, input.forces, today, n),
        problems: force_problems(g, input.forces, n),
        near_matches: nears(g, new_titles(input.forces, n), hits),
        input,
    }
}

/// Makes a force that holds from today on.
pub fn make_force(id: String, title: &str, body: &str, today: &str) -> (r: Force)
    ensures
        r@ == new_force(id@, title@, body@, today@),
{
    let mut log: Vec<StatusEntry> = Vec::new();
    log.push(StatusEntry { status: ForceStatus::Holds, since: today.to_string() });
    let r = Force {
        id,
        title: title.to_string(),
        depends_on: Vec::new(),
        status_log: log,
        superseded_by: None,
        tags: Vec::new(),
        body: body.to_string(),
        path: String::new(),
    };
    assert(views(r.status_log@) =~= seq![
        StatusEntryView { status: ForceStatus::Holds, since: today@ },
    ]);
    assert(views(r.depends_on@) =~= Seq::empty());
    assert(views(r.tags@) =~= Seq::empty());
    r
}

/// The titles of the first forces come first.
pub proof fn lemma_new_titles(forces: Seq<ForceInputView>, n: int)
    requires
        0 <= n <= forces.len(),
    ensures
        new_titles(forces, n).len() <= new_titles(forces, forces.len() as int).len(),
        new_titles(forces, n) == new_titles(forces, forces.len() as int).take(
            new_titles(forces, n).len() as int,
        ),
    decreases forces.len() - n,
{
    let all = new_titles(forces, forces.len() as int);
    if n < forces.len() {
        lemma_new_titles(forces, n + 1);
        let a = new_titles(forces, n);
        let b = new_titles(forces, n + 1);
        assert(a =~= b.take(a.len() as int));
        assert(all.take(b.len() as int).take(a.len() as int) =~= all.take(a.len() as int));
    } else {
        assert(all.take(all.len() as int) =~= all);
    }
}

/// Composes what a proposal makes on a given day, given the near matches of
/// each new force in turn.
pub fn compose(graph: &Graph, input: ProposeInput, hits: Vec<Vec<Hit>>, today: &str) -> (r: Proposed)
    requires
        graph@.forces.len() + graph@.decisions.len() <= u32::MAX,
        hits.len() == new_titles(input@.forces, input@.forces.len() as int).len(),
    ensures
        r@ == composed(graph@, input@, hits@.map_values(|h: Vec<Hit>| views(h@)), today@),
{
    let ghost g = graph@;
    let ghost fs = input@.forces;
    let ghost n = fs.len() as int;
    let ghost titles = new_titles(fs, n);
    let ghost hs = hits@.map_values(|h: Vec<Hit>| views(h@));
    let nothing: Vec<String> = Vec::new();
    assert(views(nothing@) =~= Seq::empty());
    let mut problems: Vec<String> = Vec::new();
    let mut cites: Vec<String> = Vec::new();
    let mut made: Vec<Force> = Vec::new();
    let mut ids: Vec<String> = Vec::new();
    assert(views(problems@) =~= force_problems(g, fs, 0));
    assert(views(cites@) =~= force_cites(g, fs, 0));
    assert(views(made@) =~= made_forces(g, fs, today@, 0));
    for i in 0..input.forces.len()
        invariant
            g == graph@,
            fs == views(input.forces@),
            n == fs.len(),
            titles == new_titles(fs, n),
            nothing.len() == 0,
            views(nothing@) == Seq::<Seq<char>>::empty(),
            g.forces.len() + g.decisions.len() <= u32::MAX,
            views(problems@) == force_problems(g, fs, i as int),
            views(cites@) == force_cites(g, fs, i as int),
            views(made@) == made_forces(g, fs, today@, i as int),
            ids.len() == new_titles(fs, i as int).len(),
            forall|j: int|
                0 <= j < ids.len() ==> (#[trigger] ids@[j])@ == force_id(g, titles[j]),
    {
        let ghost before = (views(problems@), views(cites@), views(made@));
        proof {
            assert(fs[i as int] == input.forces@[i as int]@);
            lemma_new_titles(fs, i + 1);
        }
        match &input.forces[i] {
            ForceInput::Existing { id } => {
                if graph.get(id.as_str()).is_none() {
                    let problem = join2("unknown force id ", id.as_str());
                    problems.push(problem);
                    assert(views(problems@) =~= before.0.push(problem@));
                } else {
                    cites.push(id.clone());
                    assert(views(cites@) =~= before.1.push(id@));
                }
            },
            ForceInput::New { title, body, force_new: _ } => {
                let id = generate_id(graph, &nothing, "f", title.as_str());
                let ghost at = ids.len() as int;
                ids.push(id.clone());
                cites.push(id.clone());
                let force = make_force(id, title.as_str(), body.as_str(), today);
                made.push(force);
                proof {
                    assert(views(cites@) =~= before.1.push(id@));
                    assert(views(made@) =~= before.2.push(force@));
                    assert(new_titles(fs, i + 1)[at] == title@);
                    assert(titles[at] == title@);
                }
            },
        }
    }
    let ghost found_ids = ids@;
    let mut near_list: Vec<Near> = Vec::new();
    let mut k: usize = 0;
    for list in it: hits.into_iter()
        invariant
            it.seq() == hits@,
            hs == hits@.map_values(|h: Vec<Hit>| views(h@)),
            k == it.index(),
            hits.len() == titles.len(),
            ids.len() == titles.len(),
            ids@ == found_ids,
            forall|j: int|
                0 <= j < ids.len() ==> (#[trigger] found_ids[j])@ == force_id(g, titles[j]),
            near_list.len() == k,
            forall|j: int|
                0 <= j < k ==> (#[trigger] near_list@[j])@ == nears(g, titles, hs)[j],
    {
        let entry = Near { force_id: ids[k].clone(), hits: list };
        proof {
            assert(found_ids[k as int]@ == force_id(g, titles[k as int]));
            assert(hs[k as int] == views(list@));
            assert(entry@ == nears(g, titles, hs)[k as int]);
        }
        near_list.push(entry);
        k = k + 1;
    }
    assert(views(near_list@) =~= nears(g, titles, hs));
    let id = generate_id(graph, &nothing, "d", input.title.as_str());
    let decision = Decision {
        id,
        title: input.title.clone(),
        status: DecisionStatus::Accepted,
        date: today.to_string(),
        cites,
        supersedes: copy_texts(&input.supersedes),
        relates: copy_texts(&input.relates),
        anchors: Vec::new(),
        tags: copy_texts(&input.tags),
        body: input.body.clone(),
        path: String::new(),
    };
    Proposed { decision, new_forces: made, problems, near_matches: near_list, input }
}

/// Whether `hits` may be the near matches of a title: what recall finds, or
/// nothing where the title could not be embedded.
pub open spec fn near_result<E: Embedder, F: Fn(&Vector, &Vector) -> Single>(
    snap: &Snapshot,
    embedder: &E,
    similarity: F,
    warn: Double,
    title: Seq<char>,
    hits: Seq<HitView>,
) -> bool {
    exists|t: &str, q: Result<Vector, EmbedError>| #[trigger]
        call_ensures(E::embed_query, (embedder, t), q) && t@ == title && match q {
            Ok(v) => exists|scores: Seq<Single>| #[trigger]
                force_scores_of(similarity, snap, v, scores) && hits == near(snap@, warn, scores),
            Err(_) => hits == Seq::<HitView>::empty(),
        }
}

/// The near matches of one title; nothing where it cannot be embedded.
fn find_near<E: Embedder, F: Fn(&Vector, &Vector) -> Single>(
    snap: &Snapshot,
    embedder: &E,
    similarity: &F,
    warn: Double,
    title: &str,
) -> (r: Vec<Hit>)
    requires
        snap@.sound(),
        forall|a: &Vector, b: &Vector| call_requires(*similarity, (a, b)),
    ensures
        near_result(snap, embedder, *similarity, warn, title@, views(r@)),
{
    let q = near_matches(snap, embedder, title, warn, similarity);
    match q {
        Ok(hits) => hits,
        Err(_) => {
            let none: Vec<Hit> = Vec::new();
            assert(views(none@) =~= Seq::empty());
            none
        },
    }
}

/// The near matches of the new forces of a proposal, in turn.
pub fn find_nears<E: Embedder, F: Fn(&Vector, &Vector) -> Single>(
    snap: &Snapshot,
    embedder: &E,
    similarity: &F,
    warn: Double,
    forces: &Vec<ForceInput>,
) -> (r: Vec<Vec<Hit>>)
    requires
        snap@.sound(),
        forall|a: &Vector, b: &Vector| call_requires(*similarity, (a, b)),
    ensures
        nears_result(
            snap,
            embedder,
            *similarity,
            warn,
            views(forces@),
            r@.map_values(|h: Vec<Hit>| views(h@)),
        ),
{
    let ghost fs = views(forces@);
    let ghost titles = new_titles(fs, fs.len() as int);
    let mut r: Vec<Vec<Hit>> = Vec::new();
    for i in 0..forces.len()
        invariant
            snap@.sound(),
            forall|a: &Vector, b: &Vector| call_requires(*similarity, (a, b)),
            fs == views(forces@),
            titles == new_titles(fs, fs.len() as int),
            r.len() == new_titles(fs, i as int).len(),
            forall|j: int|
                0 <= j < r.len() ==> near_result(
                    snap,
                    embedder,
                    *similarity,
                    warn,
                    titles[j],
                    views((#[trigger] r@[j])@),
                ),
    {
        proof {
            assert(fs[i as int] == forces@[i as int]@);
            lemma_new_titles(fs, i + 1);
        }
        if let ForceInput::New { title, body: _, force_new: _ } = &forces[i] {
            let ghost at = r.len() as int;
            let hits = find_near(snap, embedder, similarity, warn, title.as_str());
            r.push(hits);
            assert(new_titles(fs, i + 1)[at] == title@);
            assert(titles[at] == title@);
        }
    }
    proof {
        let hs = r@.map_values(|h: Vec<Hit>| views(h@));
        assert forall|j: int| 0 <= j < titles.len() implies near_result(
            snap,
            embedder,
            *similarity,
            warn,
            titles[j],
            #[trigger] hs[j],
        ) by {
            assert(hs[j] == views(r@[j]@));
        }
    }
    r
}

/// Whether `hits` may be the near matches of the new forces of a proposal.
pub open spec fn nears_result<E: Embedder, F: Fn(&Vector, &Vector) -> Single>(
    snap: &Snapshot,
    embedder: &E,
    similarity: F,
    warn: Double,
    forces: Seq<ForceInputView>,
    hits: Seq<Seq<HitView>>,
) -> bool {
    let titles = new_titles(forces, forces.len() as int);
    &&& hits.len() == titles.len()
    &&& forall|j: int|
        0 <= j < titles.len() ==> near_result(
            snap,
            embedder,
            similarity,
            warn,
            titles[j],
            #[trigger] hits[j],
        )
}

/// The engine: a corpus that is loaded.
pub struct Engine<E: Embedder> {
    cfg: Config,
    embedder: E,
    snapshot: Snapshot,
}

/// The message with which a build that failed is reported.
pub open spec fn failure(e: BuildError) -> Seq<char> {
    "build error: "@ + e@
}

impl<E: Embedder> Engine<E> {
    /// The configuration of the corpus.
    pub closed spec fn config_of(self) -> Config {
        self.cfg
    }

    /// What embeds texts.
    pub closed spec fn embedder_of(self) -> E {
        self.embedder
    }

    /// The snapshot of the corpus.
    pub closed spec fn snapshot_of(self) -> Snapshot {
        self.snapshot
    }

    #[verifier::type_invariant]
    spec fn inv(self) -> bool {
        &&& self.snapshot@.sound()
        &&& names_model(&self.embedder, self.snapshot@.model_id)
    }

    /// The engine of a corpus, whose snapshot is built from its files and from
    /// what was wrong in finding them.
    pub fn new<F: Fn(&str) -> Result<RawRecord, String>>(
        cfg: Config,
        embedder: E,
        files: &Vec<SourceFile>,
        found: Vec<Diagnostic>,
        decode: &F,
        cache: &mut VectorCache,
    ) -> (r: Result<Engine<E>, String>)
        requires
            forall|yaml: &str| call_requires(*decode, (yaml,)),
            files.len() <= u32::MAX,
        ensures
            exists|built: Result<Snapshot, BuildError>| #[trigger]
                builds(
                    views(files@),
                    views(found@),
                    *decode,
                    &embedder,
                    old(cache)@,
                    built,
                    final(cache)@,
                ) && match built {
                    Ok(snap) => r is Ok && r->Ok_0.config_of() == cfg && r->Ok_0.embedder_of()
                        == embedder && r->Ok_0.snapshot_of() == snap,
                    Err(e) => r is Err && r->Err_0@ == failure(e),
                },
    {
        let ghost cache0 = cache@;
        let ghost problems = views(found@);
        let built = Snapshot::build(files, found, decode, &embedder, cache);
        match built {
            Ok(snapshot) => {
                proof {
                    law_built_is_sound(
                        views(files@),
                        problems,
                        *decode,
                        &embedder,
                        cache0,
                        built,
                        cache@,
                    );
                }
                Ok(Engine { cfg, embedder, snapshot })
            },
            Err(e) => Err(join2("build error: ", e.0.as_str())),
        }
    }

    /// The configuration of the corpus.
    pub fn config(&self) -> (r: &Config)
        ensures
            *r == self.config_of(),
    {
        &self.cfg
    }

    /// What embeds texts.
    pub fn embedder(&self) -> (r: &E)
        ensures
            *r == self.embedder_of(),
    {
        &self.embedder
    }

    /// The snapshot of the corpus.
    pub fn snapshot(&self) -> (r: &Snapshot)
        ensures
            *r == self.snapshot_of(),
            r@.sound(),
            names_model(&self.embedder_of(), r@.model_id),
    {
        proof {
            use_type_invariant(self);
        }
        &self.snapshot
    }

    /// Builds the snapshot anew, with the engine's embedder. Where building
    /// fails, the engine stays as it is.
    pub fn rebuild<F: Fn(&str) -> Result<RawRecord, String>>(
        &mut self,
        files: &Vec<SourceFile>,
        found: Vec<Diagnostic>,
        decode: &F,
        cache: &mut VectorCache,
    ) -> (r: Result<(), String>)
        requires
            forall|yaml: &str| call_requires(*decode, (yaml,)),
            files.len() <= u32::MAX,
        ensures
            final(self).config_of() == old(self).config_of(),
            final(self).embedder_of() == old(self).embedder_of(),
            exists|built: Result<Snapshot, BuildError>| #[trigger]
                builds(
                    views(files@),
                    views(found@),
                    *decode,
                    &old(self).embedder_of(),
                    old(cache)@,
                    built,
                    final(cache)@,
                ) && match built {
                    Ok(snap) => r is Ok && final(self).snapshot_of() == snap,
                    Err(e) => r is Err && r->Err_0@ == failure(e) && final(self).snapshot_of()
                        == old(self).snapshot_of(),
                },
    {
        let ghost cache0 = cache@;
        let ghost problems = views(found@);
        let built = Snapshot::build(files, found, decode, &self.embedder, cache);
        proof {
            if built is Ok {
                law_built_is_sound(
                    views(files@),
                    problems,
                    *decode,
                    &self.embedder,
                    cache0,
                    built,
                    cache@,
                );
            }
        }
        self.take_over(built)
    }

    /// Takes over a snapshot that was built with the engine's embedder. Where
    /// building failed, the engine stays as it is.
    pub(crate) fn take_over(&mut self, built: Result<Snapshot, BuildError>) -> (r: Result<(), String>)
        requires
            built is Ok ==> built->Ok_0@.sound() && names_model(
                &old(self).embedder_of(),
                built->Ok_0@.model_id,
            ),
        ensures
            final(self).config_of() == old(self).config_of(),
            final(self).embedder_of() == old(self).embedder_of(),
            match built {
                Ok(snap) => r is Ok && final(self).snapshot_of() == snap,
                Err(e) => r is Err && r->Err_0@ == failure(e) && final(self).snapshot_of() == old(
                    self,
                ).snapshot_of(),
            },
    {
        match built {
            Ok(snapshot) => {
                self.snapshot = snapshot;
                Ok(())
            },
            Err(e) => Err(join2("build error: ", e.0.as_str())),
        }
    }

    /// The id that a new record gets.
    pub fn generate_id(&self, prefix: &str, title: &str) -> (r: String)
        ensures
            r@ == free_id(self.snapshot_of()@.graph, Seq::empty(), base_id(prefix@, title@)),
            self.snapshot_of()@.graph.lookup(r@) is None,
    {
        proof {
            use_type_invariant(self);
        }
        let nothing: Vec<String> = Vec::new();
        assert(views(nothing@) =~= Seq::empty());
        generate_id(&self.snapshot.graph, &nothing, prefix, title)
    }

    /// Composes a proposed decision with its forces, and touches nothing.
    pub fn propose_decision<F: Fn(&Vector, &Vector) -> Single>(
        &self,
        input: ProposeInput,
        similarity: &F,
    ) -> (r: Result<Proposed, EmbedError>)
        requires
            forall|a: &Vector, b: &Vector| call_requires(*similarity, (a, b)),
        ensures
            r is Ok,
            exists|hits: Seq<Seq<HitView>>, today: Seq<char>|
                #![trigger composed(self.snapshot_of()@.graph, input@, hits, today)]
                iso_day(today) is Some && nears_result(
                    &self.snapshot_of(),
                    &self.embedder_of(),
                    *similarity,
                    self.config_of().dedup.warn,
                    input@.forces,
                    hits,
                ) && r->Ok_0@ == composed(self.snapshot_of()@.graph, input@, hits, today),
    {
        proof {
            use_type_invariant(self);
        }
        let hits = find_nears(
            &self.snapshot,
            &self.embedder,
            similarity,
            self.cfg.dedup.warn,
            &input.forces,
        );
        let today = today_iso();
        let ghost hs = hits@.map_values(|h: Vec<Hit>| views(h@));
        let proposed = compose(&self.snapshot.graph, input, hits, today.as_str());
        assert(proposed@ == composed(self.snapshot_of()@.graph, input@, hs, today@));
        Ok(proposed)
    }
}

proof fn lemma_made_forces(
    g: GraphView,
    forces: Seq<ForceInputView>,
    today: Seq<char>,
    n: int,
)
    requires
        0 <= n <= forces.len(),
        iso_day(today) is Some,
    ensures
        forall|i: int|
            0 <= i < made_forces(g, forces, today, n).len() ==> {
                let f = #[trigger] made_forces(g, forces, today, n)[i];
                &&& g.lookup(f.id) is None
                &&& valid_log(f.status_log)
                &&& force_cites(g, forces, n).contains(f.id)
            },
    decreases n,
{
    if n > 0 {
        lemma_made_forces(g, forces, today, n - 1);
        let before = made_forces(g, forces, today, n - 1);
        let cites = force_cites(g, forces, n - 1);
        let all = made_forces(g, forces, today, n);
        let all_cites = force_cites(g, forces, n);
        match forces[n - 1] {
            ForceInputView::New { title, body, .. } => {
                let id = force_id(g, title);
                law_new_ids_are_free(g, Seq::empty(), base_id("f"@, title));
                lemma_push_contains(cites, id);
                let log = new_force(id, title, body, today).status_log;
                assert(log_days(log)[0] == iso_day(today));
                assert(valid_log(log));
            },
            ForceInputView::Existing { id } => {
                lemma_push_contains(cites, id);
            },
        }
        assert forall|i: int| 0 <= i < all.len() implies {
            let f = #[trigger] all[i];
            &&& g.lookup(f.id) is None
            &&& valid_log(f.status_log)
            &&& all_cites.contains(f.id)
        } by {
            if i < before.len() {
                assert(all[i] == before[i]);
                assert(cites.contains(before[i].id));
            }
        }
    }
}

/// The records that a proposal makes are new, can be read back, and hang
/// together: no record has the id of any, every new force has a history, and
/// the decision cites each of them.
pub proof fn law_proposed_records_are_new(
    g: GraphView,
    input: ProposeInputView,
    hits: Seq<Seq<HitView>>,
    today: Seq<char>,
)
    requires
        iso_day(today) is Some,
    ensures
        g.lookup(composed(g, input, hits, today).decision.id) is None,
        iso_day(composed(g, input, hits, today).decision.date) is Some,
        forall|i: int|
            0 <= i < composed(g, input, hits, today).new_forces.len() ==> {
                let f = #[trigger] composed(g, input, hits, today).new_forces[i];
                &&& g.lookup(f.id) is None
                &&& valid_log(f.status_log)
                &&& composed(g, input, hits, today).decision.cites.contains(f.id)
            },
{
    law_new_ids_are_free(g, Seq::empty(), base_id("d"@, input.title));
    lemma_made_forces(g, input.forces, today, input.forces.len() as int);
}

/// Whether an embedder makes the same of the same text, whenever it is asked.
pub open spec fn repeats<E: Embedder>(embedder: &E) -> bool {
    forall|t: &str, u: &str, q: Result<Vector, EmbedError>, r: Result<Vector, EmbedError>|
        #[trigger] call_ensures(E::embed_query, (embedder, t), q) && #[trigger] call_ensures(
            E::embed_query,
            (embedder, u),
            r,
        ) && t@ == u@ ==> match (q, r) {
            (Ok(v), Ok(w)) => v@ == w@,
            (Err(_), Err(_)) => true,
            _ => false,
        }
}

/// Whether a similarity gives the same number for the same vectors.
pub open spec fn compares_alike<F: Fn(&Vector, &Vector) -> Single>(similarity: F) -> bool {
    forall|a: &Vector, b: &Vector, c: &Vector, x: Single, y: Single|
        #[trigger] call_ensures(similarity, (a, c), x) && #[trigger] call_ensures(
            similarity,
            (b, c),
            y,
        ) && a@ == b@ ==> x == y
}

proof fn lemma_near_repeats<E: Embedder, F: Fn(&Vector, &Vector) -> Single>(
    snap: &Snapshot,
    embedder: &E,
    similarity: F,
    warn: Double,
    title: Seq<char>,
    hits: Seq<HitView>,
    again: Seq<HitView>,
)
    requires
        repeats(embedder),
        compares_alike(similarity),
        near_result(snap, embedder, similarity, warn, title, hits),
        near_result(snap, embedder, similarity, warn, title, again),
    ensures
        hits == again,
{
    let s = snap@;
    let (t, q) = choose|t: &str, q: Result<Vector, EmbedError>| #[trigger]
        call_ensures(E::embed_query, (embedder, t), q) && t@ == title && match q {
            Ok(v) => exists|scores: Seq<Single>| #[trigger]
                force_scores_of(similarity, snap, v, scores) && hits == near(s, warn, scores),
            Err(_) => hits == Seq::<HitView>::empty(),
        };
    let (u, r) = choose|u: &str, r: Result<Vector, EmbedError>| #[trigger]
        call_ensures(E::embed_query, (embedder, u), r) && u@ == title && match r {
            Ok(v) => exists|scores: Seq<Single>| #[trigger]
                force_scores_of(similarity, snap, v, scores) && again == near(s, warn, scores),
            Err(_) => again == Seq::<HitView>::empty(),
        };
    if let (Ok(v), Ok(w)) = (q, r) {
        let a = choose|a: Seq<Single>| #[trigger]
            force_scores_of(similarity, snap, v, a) && hits == near(s, warn, a);
        let b = choose|b: Seq<Single>| #[trigger]
            force_scores_of(similarity, snap, w, b) && again == near(s, warn, b);
        assert forall|i: int|
            0 <= i < s.graph.forces.len() && has_vector(s, (#[trigger] s.graph.forces[i]).id)
            implies a[i] == b[i] by {
            let other = &snap.vectors@[s.graph.forces[i].id];
            assert(call_ensures(similarity, (&v, other), a[i]));
            assert(call_ensures(similarity, (&w, other), b[i]));
        }
        lemma_near_same(s, warn, a, b, s.graph.forces.len() as int);
    }
}

/// A proposal can be repeated: on the same day, with an embedder and a
/// similarity that repeat themselves, the same is proposed again.
pub proof fn law_proposals_repeat<E: Embedder, F: Fn(&Vector, &Vector) -> Single>(
    snap: &Snapshot,
    embedder: &E,
    similarity: F,
    warn: Double,
    input: ProposeInputView,
    hits: Seq<Seq<HitView>>,
    again: Seq<Seq<HitView>>,
    today: Seq<char>,
)
    requires
        repeats(embedder),
        compares_alike(similarity),
        nears_result(snap, embedder, similarity, warn, input.forces, hits),
        nears_result(snap, embedder, similarity, warn, input.forces, again),
    ensures
        composed(snap@.graph, input, hits, today) == composed(snap@.graph, input, again, today),
{
    let titles = new_titles(input.forces, input.forces.len() as int);
    assert forall|j: int| 0 <= j < titles.len() implies hits[j] == again[j] by {
        lemma_near_repeats(snap, embedder, similarity, warn, titles[j], hits[j], again[j]);
    }
    assert(hits =~= again);
}

/// A proposal has no problems exactly when every force that it names exists.
pub proof fn law_problems_are_unknown_forces(g: GraphView, forces: Seq<ForceInputView>, n: int)
    requires
        0 <= n <= forces.len(),
    ensures
        force_problems(g, forces, n).len() == 0 <==> forall|i: int|
            0 <= i < n ==> is_known(g, #[trigger] forces[i]),
    decreases n,
{
    if n > 0 {
        law_problems_are_unknown_forces(g, forces, n - 1);
        if force_problems(g, forces, n).len() == 0 {
            assert(is_known(g, forces[n - 1]));
        }
    }
}

/// Whether a force that a proposal names exists.
pub open spec fn is_known(g: GraphView, f: ForceInputView) -> bool {
    match f {
        ForceInputView::Existing { id } => g.lookup(id) is Some,
        ForceInputView::New { .. } => true,
    }
}

/// How many of the first `i` forces are to be made.
pub open spec fn news_before(forces: Seq<ForceInputView>, i: int) -> int
    decreases i,
{
    if i <= 0 {
        0
    } else if forces[i - 1] is New {
        news_before(forces, i - 1) + 1
    } else {
        news_before(forces, i - 1)
    }
}

/// The titles of new forces stand in the order of the forces.
pub proof fn law_near_matches_are_looked_up_by_title(forces: Seq<ForceInputView>, i: int)
    requires
        0 <= i < forces.len(),
    ensures
        new_titles(forces, i).len() == news_before(forces, i),
        new_titles(forces, forces.len() as int).len() == news_before(forces, forces.len() as int),
        forces[i] is New ==> 0 <= news_before(forces, i) < news_before(forces, forces.len() as int)
            && new_titles(forces, forces.len() as int)[news_before(forces, i)] == forces[i]->title,
{
    lemma_news(forces, i);
    lemma_news(forces, forces.len() as int);
    if forces[i] is New {
        lemma_new_titles(forces, i + 1);
        let b = new_titles(forces, i + 1);
        assert(b == new_titles(forces, i).push(forces[i]->title));
        assert(b[news_before(forces, i)] == new_titles(forces, forces.len() as int)[news_before(
            forces,
            i,
        )]);
    }
}

pub proof fn lemma_news(forces: Seq<ForceInputView>, n: int)
    requires
        0 <= n,
    ensures
        new_titles(forces, n).len() == news_before(forces, n),
    decreases n,
{
    if n > 0 {
        lemma_news(forces, n - 1);
    }
}

/// Whether a proposal names a force that no record is.
pub open spec fn is_unknown(g: GraphView, f: ForceInputView) -> bool {
    match f {
        ForceInputView::Existing { id } => g.lookup(id) is None,
        ForceInputView::New { .. } => false,
    }
}

/// How many of the first `i` forces are named by an id that no record has.
pub open spec fn unknowns_before(g: GraphView, forces: Seq<ForceInputView>, i: int) -> int
    decreases i,
{
    if i <= 0 {
        0
    } else if is_unknown(g, forces[i - 1]) {
        unknowns_before(g, forces, i - 1) + 1
    } else {
        unknowns_before(g, forces, i - 1)
    }
}

/// What a proposal makes of the force at `i`. One that is named by an id that
/// no record has is a problem, and any other is cited. One that is to be made
/// is made with the title and the body that were given; it holds since the day
/// of the proposal and rests on nothing, and its near matches are told under
/// its id.
pub open spec fn is_composed(
    g: GraphView,
    p: ProposedView,
    forces: Seq<ForceInputView>,
    hits: Seq<Seq<HitView>>,
    today: Seq<char>,
    i: int,
) -> bool {
    let unknowns = unknowns_before(g, forces, i);
    let cited = p.decision.cites[i - unknowns];
    match forces[i] {
        ForceInputView::Existing { id } => if g.lookup(id) is None {
            p.problems[unknowns] == "unknown force id "@ + id
        } else {
            cited == id
        },
        ForceInputView::New { title, body, .. } => {
            let k = news_before(forces, i);
            let f = p.new_forces[k];
            &&& f.title == title
            &&& f.body == body
            &&& f.status_log.len() == 1
            &&& f.status_log[0].status == ForceStatus::Holds
            &&& f.status_log[0].since == today
            &&& f.depends_on.len() == 0
            &&& f.superseded_by is None
            &&& f.tags.len() == 0
            &&& cited == f.id
            &&& p.near_matches[k].force_id == f.id
            &&& p.near_matches[k].hits == hits[k]
        },
    }
}

proof fn lemma_composed_at(g: GraphView, forces: Seq<ForceInputView>, today: Seq<char>, n: int)
    requires
        0 <= n <= forces.len(),
    ensures
        force_cites(g, forces, n).len() == n - unknowns_before(g, forces, n),
        force_problems(g, forces, n).len() == unknowns_before(g, forces, n),
        made_forces(g, forces, today, n).len() == news_before(forces, n),
        forall|i: int|
            0 <= i < n ==> {
                let u = unknowns_before(g, forces, i);
                let k = news_before(forces, i);
                &&& 0 <= u <= i
                &&& u + (if is_unknown(g, forces[i]) {
                    1int
                } else {
                    0
                }) <= unknowns_before(g, forces, n)
                &&& i - u + (if is_unknown(g, forces[i]) {
                    0int
                } else {
                    1
                }) <= n - unknowns_before(g, forces, n)
                &&& k + (if forces[i] is New {
                    1int
                } else {
                    0
                }) <= news_before(forces, n)
                &&& match #[trigger] forces[i] {
                    ForceInputView::Existing { id } => if g.lookup(id) is None {
                        force_problems(g, forces, n)[u] == "unknown force id "@ + id
                    } else {
                        force_cites(g, forces, n)[i - u] == id
                    },
                    ForceInputView::New { title, body, .. } => {
                        &&& force_cites(g, forces, n)[i - u] == force_id(g, title)
                        &&& 0 <= k
                        &&& made_forces(g, forces, today, n)[k] == new_force(
                            force_id(g, title),
                            title,
                            body,
                            today,
                        )
                    },
                }
            },
    decreases n,
{
    if n > 0 {
        lemma_composed_at(g, forces, today, n - 1);
        lemma_news(forces, n - 1);
        lemma_unknowns(g, forces, n - 1);
    }
}

proof fn lemma_unknowns(g: GraphView, forces: Seq<ForceInputView>, n: int)
    requires
        0 <= n,
    ensures
        0 <= unknowns_before(g, forces, n) <= n,
    decreases n,
{
    if n > 0 {
        lemma_unknowns(g, forces, n - 1);
    }
}

/// A proposal is what was asked for. The decision has the title, the body, the
/// tags and the references of the input, is accepted, and has the day of the
/// proposal for its date. Each force is told of in its place: those that exist
/// and those that are made are cited in their order, and the rest are problems.
pub proof fn law_proposals_are_what_was_asked_for(
    g: GraphView,
    input: ProposeInputView,
    hits: Seq<Seq<HitView>>,
    today: Seq<char>,
)
    ensures
        ({
            let p = composed(g, input, hits, today);
            let d = p.decision;
            let n = input.forces.len() as int;
            &&& p.input == input
            &&& d.title == input.title
            &&& d.body == input.body
            &&& d.status == DecisionStatus::Accepted
            &&& d.date == today
            &&& d.supersedes == input.supersedes
            &&& d.relates == input.relates
            &&& d.tags == input.tags
            &&& d.anchors.len() == 0
            &&& d.cites.len() == n - unknowns_before(g, input.forces, n)
            &&& p.problems.len() == unknowns_before(g, input.forces, n)
            &&& p.new_forces.len() == news_before(input.forces, n)
            &&& p.near_matches.len() == news_before(input.forces, n)
            &&& forall|i: int|
                0 <= i < n ==> is_composed(g, p, input.forces, hits, today, i)
        }),
{
    let p = composed(g, input, hits, today);
    let n = input.forces.len() as int;
    lemma_composed_at(g, input.forces, today, n);
    lemma_news(input.forces, n);
    assert forall|i: int| 0 <= i < n implies is_composed(g, p, input.forces, hits, today, i) by {
        law_near_matches_are_looked_up_by_title(input.forces, i);
        let f = input.forces[i];
        if f is New {
            let k = news_before(input.forces, i);
            assert(p.near_matches[k].force_id == force_id(g, f->title));
            assert(p.near_matches[k].hits == hits[k]);
        }
    }
}

/// Every new force of a proposal is compared with every force of the corpus.
/// What is embedded for it is its own title. Where that fails nothing is near;
/// otherwise a force that has a vector is told of exactly where the similarity
/// of the title and of that vector reaches the threshold.
pub proof fn law_new_forces_are_compared_with_all<
    E: Embedder,
    F: Fn(&Vector, &Vector) -> Single,
>(
    snap: &Snapshot,
    embedder: &E,
    similarity: F,
    warn: Double,
    forces: Seq<ForceInputView>,
    hits: Seq<Seq<HitView>>,
    i: int,
    k: int,
)
    requires
        distinct_ids(snap@.graph),
        nears_result(snap, embedder, similarity, warn, forces, hits),
        0 <= i < forces.len(),
        forces[i] is New,
        0 <= k < snap@.graph.forces.len(),
        snap@.vectors.contains_key(snap@.graph.forces[k].id),
        snap@.vectors[snap@.graph.forces[k].id].len() > 0,
    ensures
        exists|t: &str, q: Result<Vector, EmbedError>|
            #![trigger call_ensures(E::embed_query, (embedder, t), q)]
            {
                let own = hits[news_before(forces, i)];
                let id = snap@.graph.forces[k].id;
                &&& call_ensures(E::embed_query, (embedder, t), q)
                &&& t@ == forces[i]->title
                &&& q is Err ==> own.len() == 0
                &&& q is Ok ==> exists|score: Single|
                    {
                        &&& #[trigger] call_ensures(
                            similarity,
                            (&q->Ok_0, &snap.vectors@[id]),
                            score,
                        )
                        &&& (exists|m: int| 0 <= m < own.len() && (#[trigger] own[m]).id == id)
                            <==> score.at_least(warn)
                    }
            },
{
    law_near_matches_are_looked_up_by_title(forces, i);
    let j = news_before(forces, i);
    let own = hits[j];
    let title = forces[i]->title;
    let s = snap@;
    let f = s.graph.forces[k];
    assert(near_result(snap, embedder, similarity, warn, title, own));
    let (t, q) = choose|t: &str, q: Result<Vector, EmbedError>| #[trigger]
        call_ensures(E::embed_query, (embedder, t), q) && t@ == title && match q {
            Ok(v) => exists|scores: Seq<Single>| #[trigger]
                force_scores_of(similarity, snap, v, scores) && own == near(s, warn, scores),
            Err(_) => own == Seq::<HitView>::empty(),
        };
    if let Ok(v) = q {
        let scores = choose|scores: Seq<Single>| #[trigger]
            force_scores_of(similarity, snap, v, scores) && own == near(s, warn, scores);
        law_near_matches_leave_no_force_out(s, warn, scores, k);
        assert(has_vector(s, s.graph.forces[k].id));
        assert(call_ensures(similarity, (&v, &snap.vectors@[f.id]), scores[k]));
    }
    assert(call_ensures(E::embed_query, (embedder, t), q));
}

/// The ids of a proposal are named after the titles: the decision has `d-` and
/// the slug of its title, and each force that is made `f-` and the slug of its
/// own, with a number behind it where a record has it.
pub proof fn law_proposed_ids_are_named_after_titles(
    g: GraphView,
    input: ProposeInputView,
    hits: Seq<Seq<HitView>>,
    today: Seq<char>,
    i: int,
)
    ensures
        ({
            let p = composed(g, input, hits, today);
            &&& p.decision.id == free_id(g, Seq::empty(), "d"@ + "-"@ + slug(input.title))
            &&& 0 <= i < input.forces.len() && input.forces[i] is New ==> p.new_forces[news_before(
                input.forces,
                i,
            )].id == free_id(g, Seq::empty(), "f"@ + "-"@ + slug(input.forces[i]->title))
        }),
{
    if 0 <= i < input.forces.len() {
        lemma_composed_at(g, input.forces, today, input.forces.len() as int);
        let f = input.forces[i];
    }
}

/// A build that failed is reported as one, with its message.
pub proof fn law_failures_are_reported_as_such(e: BuildError)
    ensures
        failure(e) == "build error: "@ + e@,
        failure(e).len() > e@.len(),
{
    reveal_strlit("build error: ");
}

} // verus!
