//! The server: what each request is answered in each phase of its life.
use vstd::prelude::*;
use crate::commit::{Receipt, ReceiptView, StatusReceipt, StatusReceiptView};
use crate::config::{Config, ConfigError, ConfigErrorView};
use crate::embed::{EmbedError, Embedder};
use crate::graph::{
    distinct_ids, law_cited_by, law_depended_by, law_records_are_found_by_their_ids,
    law_superseded_by, Graph, GraphView, Record, RecordView,
};
use crate::guardian::{
    composed, nears_result, Engine, ForceInput, ForceInputView, ProposeInput, ProposeInputView,
    Proposed, ProposedView,
};
use crate::judge::{
    is_chain, judged, law_every_decision_is_judged, law_superseded_are_deprecated_or_named,
    FallenPremise, PremiseVerdict, PremiseVerdictView,
};
use crate::linker::{Diagnostic, DiagnosticView};
use crate::recall::{
    decision_status_name, decision_status_view, found, law_limits_cut_exactly,
    law_search_finds_forces_that_are_not_retired, scores_of, search, Hit, HitView, Scope,
};
use crate::record::{
    iso_day, opt_view, Decision, DecisionStatus, DecisionView, Force, ForceStatus, ForceView,
};
use crate::report::{
    entries_among, force_status_name, law_stale_report_leaves_nothing_out, law_why_tells_of_ways,
    lemma_found_force, status_name, why_of, StaleEntry, StaleEntryView, WhyEntry, WhyEntryView,
};
use crate::order::sorted;
use crate::score::{Single, Vector};
use crate::snapshot::{Snapshot, SnapshotView};
use crate::text::{holds_text, join2, same_text, views};

verus! {

/// A phase in the life of the server.
pub enum Phase<E: Embedder> {
    /// There is no corpus.
    Empty,
    /// The corpus is being loaded.
    Loading,
    /// The corpus is loaded.
    Ready(Engine<E>),
    /// The corpus could not be loaded, for this reason.
    Failed(String),
}

/// The records that refer to a record.
pub struct Neighbours {
    pub cited_by: Vec<String>,
    pub depended_by: Vec<String>,
    pub superseded_by: Vec<String>,
}

/// What [`Neighbours`] stand for.
#[verifier::ext_equal]
pub struct NeighboursView {
    pub cited_by: Seq<Seq<char>>,
    pub depended_by: Seq<Seq<char>>,
    pub superseded_by: Seq<Seq<char>>,
}

impl View for Neighbours {
    type V = NeighboursView;

    open spec fn view(&self) -> NeighboursView {
        NeighboursView {
            cited_by: views(self.cited_by@),
            depended_by: views(self.depended_by@),
            superseded_by: views(self.superseded_by@),
        }
    }
}

/// A record with what surrounds it.
pub enum RecordReply {
    Decision {
        decision: Decision,
        /// The name of its status.
        status: String,
        neighbours: Neighbours,
        verdict: Option<PremiseVerdict>,
        superseded: bool,
        on_frontier: bool,
    },
    Force {
        force: Force,
        /// The name of the status that it has now.
        current_status: String,
        neighbours: Neighbours,
    },
}

/// What a [`RecordReply`] stands for.
#[verifier::ext_equal]
pub enum RecordReplyView {
    Decision {
        decision: DecisionView,
        status: Seq<char>,
        neighbours: NeighboursView,
        verdict: Option<PremiseVerdictView>,
        superseded: bool,
        on_frontier: bool,
    },
    Force { force: ForceView, current_status: Seq<char>, neighbours: NeighboursView },
}

impl View for RecordReply {
    type V = RecordReplyView;

    open spec fn view(&self) -> RecordReplyView {
        match self {
            RecordReply::Decision {
                decision,
                status,
                neighbours,
                verdict,
                superseded,
                on_frontier,
            } => RecordReplyView::Decision {
                decision: decision@,
                status: status@,
                neighbours: neighbours@,
                verdict: match verdict {
                    Some(v) => Some(v@),
                    None => None,
                },
                superseded: *superseded,
                on_frontier: *on_frontier,
            },
            RecordReply::Force { force, current_status, neighbours } => RecordReplyView::Force {
                force: force@,
                current_status: current_status@,
                neighbours: neighbours@,
            },
        }
    }
}

/// What a reply carries.
pub enum Body {
    Nothing,
    Hits(Vec<Hit>),
    Record(RecordReply),
    Chain(Vec<WhyEntry>),
    Stale { entries: Vec<StaleEntry>, diagnostics: Vec<Diagnostic> },
    Proposed(Proposed),
    Committed(Receipt),
    StatusSet(StatusReceipt),
    Counts { decisions: usize, forces: usize, problems: usize },
    Config(String),
}

/// What a [`Body`] stands for.
#[verifier::ext_equal]
pub enum BodyView {
    Nothing,
    Hits(Seq<HitView>),
    Record(RecordReplyView),
    Chain(Seq<WhyEntryView>),
    Stale { entries: Seq<StaleEntryView>, diagnostics: Seq<DiagnosticView> },
    Proposed(ProposedView),
    Committed(ReceiptView),
    StatusSet(StatusReceiptView),
    Counts { decisions: nat, forces: nat, problems: nat },
    Config(Seq<char>),
}

impl View for Body {
    type V = BodyView;

    open spec fn view(&self) -> BodyView {
        match self {
            Body::Nothing => BodyView::Nothing,
            Body::Hits(hits) => BodyView::Hits(views(hits@)),
            Body::Record(r) => BodyView::Record(r@),
            Body::Chain(entries) => BodyView::Chain(views(entries@)),
            Body::Stale { entries, diagnostics } => BodyView::Stale {
                entries: views(entries@),
                diagnostics: views(diagnostics@),
            },
            Body::Proposed(p) => BodyView::Proposed(p@),
            Body::Committed(r) => BodyView::Committed(r@),
            Body::StatusSet(r) => BodyView::StatusSet(r@),
            Body::Counts { decisions, forces, problems } => BodyView::Counts {
                decisions: *decisions as nat,
                forces: *forces as nat,
                problems: *problems as nat,
            },
            Body::Config(path) => BodyView::Config(path@),
        }
    }
}

/// A reply: what went wrong, how things stand, what to do next, and what was
/// asked for, each where there is something to say.
pub struct Reply {
    pub error: Option<String>,
    pub status: Option<String>,
    pub hint: Option<String>,
    pub body: Body,
}

/// What a [`Reply`] stands for.
#[verifier::ext_equal]
pub struct ReplyView {
    pub error: Option<Seq<char>>,
    pub status: Option<Seq<char>>,
    pub hint: Option<Seq<char>>,
    pub body: BodyView,
}

impl View for Reply {
    type V = ReplyView;

    open spec fn view(&self) -> ReplyView {
        ReplyView {
            error: opt_view(self.error),
            status: opt_view(self.status),
            hint: opt_view(self.hint),
            body: self.body@,
        }
    }
}

/// A reply that carries something.
pub open spec fn answer(body: BodyView) -> ReplyView {
    ReplyView { error: None, status: None, hint: None, body }
}

/// A reply that says what went wrong.
pub open spec fn error_reply(message: Seq<char>) -> ReplyView {
    ReplyView { error: Some(message), status: None, hint: None, body: BodyView::Nothing }
}

/// A reply that says how things stand.
pub open spec fn status_reply(status: Seq<char>, body: BodyView) -> ReplyView {
    ReplyView { error: None, status: Some(status), hint: None, body }
}

/// What to do where there is no corpus.
pub open spec fn no_corpus_hint() -> Seq<char> {
    "No forge.toml in this project. Call the `init` tool (after user assent) to scaffold a corpus."@
}

fn no_corpus_hint_text() -> (r: String)
    ensures
        r@ == no_corpus_hint(),
{
    "No forge.toml in this project. Call the `init` tool (after user assent) to scaffold a corpus.".to_string()
}

/// What a request is after.
#[derive(Clone, Copy, PartialEq, Eq, Structural)]
pub enum Need {
    /// Hits of a search.
    Hits,
    /// One record.
    Record,
    /// The stale report.
    Report,
    /// A change of the corpus, or a proposal for one.
    Write,
}

/// The reply to a request where there is no corpus: empty results for those
/// that read, and a refusal for those that write.
pub open spec fn no_corpus_reply(need: Need) -> ReplyView {
    match need {
        Need::Hits => ReplyView {
            error: None,
            status: None,
            hint: Some(no_corpus_hint()),
            body: BodyView::Hits(Seq::empty()),
        },
        Need::Record => ReplyView {
            error: Some("not found"@),
            status: None,
            hint: Some(no_corpus_hint()),
            body: BodyView::Nothing,
        },
        Need::Report => ReplyView {
            error: None,
            status: None,
            hint: Some(no_corpus_hint()),
            body: BodyView::Stale { entries: Seq::empty(), diagnostics: Seq::empty() },
        },
        Need::Write => error_reply("no corpus; call `init` first (after user assent)"@),
    }
}

/// The reply to a request while the corpus is being loaded.
pub open spec fn loading_reply() -> ReplyView {
    ReplyView {
        error: None,
        status: Some("loading"@),
        hint: Some(
            "The corpus is still loading (the embedding model may be downloading). Retry in a few seconds."@,
        ),
        body: BodyView::Nothing,
    }
}

/// The reply to a request where the corpus could not be loaded.
pub open spec fn failed_reply(reason: Seq<char>) -> ReplyView {
    ReplyView {
        error: Some("corpus failed to load: "@ + reason),
        status: None,
        hint: Some("Fix the problem and restart the forge-mcp server."@),
        body: BodyView::Nothing,
    }
}

fn no_corpus_hits() -> (r: Reply)
    ensures
        r@ == no_corpus_reply(Need::Hits),
{
    let hits: Vec<Hit> = Vec::new();
    assert(views(hits@) =~= Seq::empty());
    Reply { error: None, status: None, hint: Some(no_corpus_hint_text()), body: Body::Hits(hits) }
}

fn no_corpus_not_found() -> (r: Reply)
    ensures
        r@ == no_corpus_reply(Need::Record),
{
    Reply {
        error: Some("not found".to_string()),
        status: None,
        hint: Some(no_corpus_hint_text()),
        body: Body::Nothing,
    }
}

fn no_corpus_stale_report() -> (r: Reply)
    ensures
        r@ == no_corpus_reply(Need::Report),
{
    let entries: Vec<StaleEntry> = Vec::new();
    let diagnostics: Vec<Diagnostic> = Vec::new();
    assert(views(entries@) =~= Seq::empty());
    assert(views(diagnostics@) =~= Seq::empty());
    Reply {
        error: None,
        status: None,
        hint: Some(no_corpus_hint_text()),
        body: Body::Stale { entries, diagnostics },
    }
}

/// A reply that says what went wrong.
pub fn fail(message: String) -> (r: Reply)
    ensures
        r@ == error_reply(message@),
{
    Reply { error: Some(message), status: None, hint: None, body: Body::Nothing }
}

fn carry(body: Body) -> (r: Reply)
    ensures
        r@ == answer(body@),
{
    Reply { error: None, status: None, hint: None, body }
}

fn no_corpus_write_refused() -> (r: Reply)
    ensures
        r@ == no_corpus_reply(Need::Write),
{
    fail("no corpus; call `init` first (after user assent)".to_string())
}

fn loading_response() -> (r: Reply)
    ensures
        r@ == loading_reply(),
{
    Reply {
        error: None,
        status: Some("loading".to_string()),
        hint: Some(
            "The corpus is still loading (the embedding model may be downloading). Retry in a few seconds.".to_string(),
        ),
        body: Body::Nothing,
    }
}

fn failed_response(reason: &str) -> (r: Reply)
    ensures
        r@ == failed_reply(reason@),
{
    Reply {
        error: Some(join2("corpus failed to load: ", reason)),
        status: None,
        hint: Some("Fix the problem and restart the forge-mcp server.".to_string()),
        body: Body::Nothing,
    }
}

/// The reply to a request in a phase in which it cannot be served.
pub open spec fn refusal_in<E: Embedder>(phase: Phase<E>, need: Need) -> Option<ReplyView> {
    match phase {
        Phase::Empty => Some(no_corpus_reply(need)),
        Phase::Loading => Some(loading_reply()),
        Phase::Ready(_) => None,
        Phase::Failed(reason) => Some(failed_reply(reason@)),
    }
}

/// The number of hits that a search asks for by itself.
pub fn default_limit() -> (r: u32)
    ensures
        r == 10,
{
    10
}

/// The scope that a word names; whatever it does not know is everything.
pub open spec fn scope_named(word: Option<Seq<char>>) -> Scope {
    if word == Some("force"@) {
        Scope::Force
    } else if word == Some("decision"@) {
        Scope::Decision
    } else {
        Scope::Both
    }
}

/// The scope that a word names.
pub fn scope_of(word: &Option<String>) -> (r: Scope)
    ensures
        r == scope_named(opt_view(*word)),
{
    match word {
        Some(w) => if same_text(w.as_str(), "force") {
            Scope::Force
        } else if same_text(w.as_str(), "decision") {
            Scope::Decision
        } else {
            Scope::Both
        },
        None => Scope::Both,
    }
}

/// The records that refer to an id.
pub open spec fn neighbours_of(g: GraphView, id: Seq<char>) -> NeighboursView {
    NeighboursView {
        cited_by: g.cited_by(id),
        depended_by: g.depended_by(id),
        superseded_by: g.superseded_by(id),
    }
}

/// A record with what surrounds it: the whole record with its own references,
/// the references to it, and the verdict on it.
pub open spec fn record_reply(s: SnapshotView, r: RecordView) -> RecordReplyView {
    match r {
        RecordView::Decision(d) => RecordReplyView::Decision {
            decision: d,
            status: decision_status_view(d.status),
            neighbours: neighbours_of(s.graph, d.id),
            verdict: if s.verdicts.premise.contains_key(d.id) {
                Some(s.verdicts.premise[d.id])
            } else {
                None
            },
            superseded: s.verdicts.superseded.contains(d.id),
            on_frontier: s.verdicts.frontier.contains(d.id),
        },
        RecordView::Force(f) => RecordReplyView::Force {
            force: f,
            current_status: status_name(f.current_status()),
            neighbours: neighbours_of(s.graph, f.id),
        },
    }
}

/// The reply to a request for a record.
pub open spec fn get_reply(s: SnapshotView, id: Seq<char>) -> ReplyView {
    match s.graph.lookup(id) {
        Some(r) => answer(BodyView::Record(record_reply(s, r))),
        None => error_reply("not found"@),
    }
}

/// The reply to a request for the reasons of a decision's staleness.
pub open spec fn why_reply(s: SnapshotView, id: Seq<char>) -> ReplyView {
    match why_of(s, id) {
        Some(entries) => answer(BodyView::Chain(entries)),
        None => error_reply("not found"@),
    }
}

/// The reply to a request for the stale report.
pub open spec fn report_reply(s: SnapshotView) -> ReplyView {
    answer(
        BodyView::Stale {
            entries: sorted::<StaleEntry>(entries_among(s, s.verdicts.frontier)),
            diagnostics: s.diagnostics,
        },
    )
}

fn copy_verdict(v: &PremiseVerdict) -> (r: PremiseVerdict)
    ensures
        r@ == v@,
{
    match v {
        PremiseVerdict::Fresh => PremiseVerdict::Fresh,
        PremiseVerdict::Stale { fallen } => {
            let mut out: Vec<FallenPremise> = Vec::new();
            for i in 0..fallen.len()
                invariant
                    out.len() == i,
                    forall|j: int| 0 <= j < i ==> (#[trigger] out@[j])@ == fallen@[j]@,
            {
                out.push(
                    FallenPremise {
                        force_id: fallen[i].force_id.clone(),
                        status: fallen[i].status,
                        distance: fallen[i].distance,
                        since: fallen[i].since.clone(),
                    },
                );
            }
            assert(views(out@) =~= views(fallen@));
            PremiseVerdict::Stale { fallen: out }
        },
    }
}

fn copy_diagnostics(v: &Vec<Diagnostic>) -> (r: Vec<Diagnostic>)
    ensures
        views(r@) == views(v@),
{
    let mut out: Vec<Diagnostic> = Vec::new();
    for i in 0..v.len()
        invariant
            out.len() == i,
            forall|j: int| 0 <= j < i ==> (#[trigger] out@[j])@ == v@[j]@,
    {
        out.push(v[i].clone());
    }
    assert(views(out@) =~= views(v@));
    out
}

fn find_neighbours(graph: &Graph, id: &str) -> (r: Neighbours)
    ensures
        r@ == neighbours_of(graph@, id@),
{
    Neighbours {
        cited_by: graph.cited_by(id),
        depended_by: graph.depended_by(id),
        superseded_by: graph.superseded_by(id),
    }
}

fn make_decision_reply(snap: &Snapshot, d: &Decision) -> (r: RecordReply)
    ensures
        r@ == record_reply(snap@, RecordView::Decision(d@)),
{
    let id = d.id.as_str();
    let verdict = match snap.verdicts.premise.get(id) {
        Some(v) => {
            assert(snap@.verdicts.premise[id@] == snap.verdicts.premise@[id@]@);
            Some(copy_verdict(v))
        },
        None => None,
    };
    RecordReply::Decision {
        decision: d.clone(),
        status: decision_status_name(d.status).to_string(),
        neighbours: find_neighbours(&snap.graph, id),
        verdict,
        superseded: snap.verdicts.superseded.contains(id),
        on_frontier: holds_text(&snap.verdicts.frontier, id),
    }
}

fn make_force_reply(snap: &Snapshot, f: &Force) -> (r: RecordReply)
    requires
        f@.status_log.len() > 0,
    ensures
        r@ == record_reply(snap@, RecordView::Force(f@)),
{
    RecordReply::Force {
        force: f.clone(),
        current_status: force_status_name(f.current_status()).to_string(),
        neighbours: find_neighbours(&snap.graph, f.id.as_str()),
    }
}

/// Whether `r` may be the reply to a search: the error of the embedder, or the
/// hits for what it made of the query.
pub open spec fn searches<E: Embedder, F: Fn(&Vector, &Vector) -> Single>(
    engine: Engine<E>,
    query: &str,
    scope: Scope,
    limit: int,
    similarity: F,
    r: ReplyView,
) -> bool {
    exists|q: Result<Vector, EmbedError>| #[trigger]
        call_ensures(E::embed_query, (&engine.embedder_of(), query), q) && match q {
            Ok(v) => exists|scores: Seq<Single>| #[trigger]
                scores_of(similarity, &engine.snapshot_of(), v, scope, scores) && r == answer(
                    BodyView::Hits(found(engine.snapshot_of()@, scope, limit, scores)),
                ),
            Err(e) => r == error_reply(e@),
        }
}

/// A force as a request names it.
pub enum ForceSpec {
    New { title: String, body: Option<String>, force_new: Option<bool> },
    Existing { existing_id: String },
}

/// What a [`ForceSpec`] asks for. What it leaves out is empty, or not so.
pub open spec fn force_input(f: ForceSpec) -> ForceInputView {
    match f {
        ForceSpec::New { title, body, force_new } => ForceInputView::New {
            title: title@,
            body: text_or_empty(opt_view(body)),
            force_new: force_new == Some(true),
        },
        ForceSpec::Existing { existing_id } => ForceInputView::Existing { id: existing_id@ },
    }
}

/// A text, or the empty text.
pub open spec fn text_or_empty(o: Option<Seq<char>>) -> Seq<char> {
    match o {
        Some(s) => s,
        None => Seq::empty(),
    }
}

/// A list of texts, or the empty list.
pub open spec fn list_or_empty(o: Option<Vec<String>>) -> Seq<Seq<char>> {
    match o {
        Some(v) => views(v@),
        None => Seq::empty(),
    }
}

/// A proposal as a request makes it.
pub struct ProposeParams {
    pub title: String,
    pub body: Option<String>,
    pub forces: Vec<ForceSpec>,
    pub supersedes: Option<Vec<String>>,
    pub relates: Option<Vec<String>>,
    pub tags: Option<Vec<String>>,
}

/// The proposal that a request makes.
pub open spec fn proposal(p: ProposeParams) -> ProposeInputView {
    ProposeInputView {
        title: p.title@,
        body: text_or_empty(opt_view(p.body)),
        forces: p.forces@.map_values(|f: ForceSpec| force_input(f)),
        supersedes: list_or_empty(p.supersedes),
        relates: list_or_empty(p.relates),
        tags: list_or_empty(p.tags),
    }
}

fn or_empty(o: Option<Vec<String>>) -> (r: Vec<String>)
    ensures
        views(r@) == list_or_empty(o),
{
    match o {
        Some(v) => v,
        None => {
            let none: Vec<String> = Vec::new();
            assert(views(none@) =~= Seq::empty());
            none
        },
    }
}

fn or_blank(o: Option<String>) -> (r: String)
    ensures
        r@ == text_or_empty(opt_view(o)),
{
    match o {
        Some(s) => s,
        None => String::new(),
    }
}

/// Takes a proposal out of a request.
pub fn read_proposal(params: ProposeParams) -> (r: ProposeInput)
    ensures
        r@ == proposal(params),
{
    let ghost all = params.forces@.map_values(|f: ForceSpec| force_input(f));
    let ghost specs = params.forces@;
    let mut forces: Vec<ForceInput> = Vec::new();
    for f in it: params.forces.into_iter()
        invariant
            it.seq() == specs,
            all == specs.map_values(|f: ForceSpec| force_input(f)),
            forces.len() == it.index(),
            forall|j: int| 0 <= j < forces.len() ==> (#[trigger] forces@[j])@ == all[j],
    {
        assert(all[it.index() as int] == force_input(f));
        let input = match f {
            ForceSpec::New { title, body, force_new } => ForceInput::New {
                title,
                body: or_blank(body),
                force_new: match force_new {
                    Some(b) => b,
                    None => false,
                },
            },
            ForceSpec::Existing { existing_id } => ForceInput::Existing { id: existing_id },
        };
        forces.push(input);
    }
    assert(views(forces@) =~= all);
    ProposeInput {
        title: params.title,
        body: or_blank(params.body),
        forces,
        supersedes: or_empty(params.supersedes),
        relates: or_empty(params.relates),
        tags: or_empty(params.tags),
    }
}

impl<E: Embedder> Phase<E> {
    /// The reply where a request cannot be served; nothing where it can.
    pub fn refusal(&self, need: Need) -> (r: Option<Reply>)
        ensures
            match r {
                Some(reply) => refusal_in(*self, need) == Some(reply@),
                None => refusal_in(*self, need) is None,
            },
    {
        match self {
            Phase::Ready(_) => None,
            Phase::Loading => Some(loading_response()),
            Phase::Failed(reason) => Some(failed_response(reason.as_str())),
            Phase::Empty => Some(
                match need {
                    Need::Hits => no_corpus_hits(),
                    Need::Record => no_corpus_not_found(),
                    Need::Report => no_corpus_stale_report(),
                    Need::Write => no_corpus_write_refused(),
                },
            ),
        }
    }

    /// Answers a search.
    pub fn search<F: Fn(&Vector, &Vector) -> Single>(
        &self,
        query: &str,
        scope: &Option<String>,
        limit: u32,
        similarity: &F,
    ) -> (r: Reply)
        requires
            forall|a: &Vector, b: &Vector| call_requires(*similarity, (a, b)),
        ensures
            match *self {
                Phase::Ready(engine) => searches(
                    engine,
                    query,
                    scope_named(opt_view(*scope)),
                    limit as int,
                    *similarity,
                    r@,
                ),
                _ => refusal_in(*self, Need::Hits) == Some(r@),
            },
    {
        match self {
            Phase::Ready(engine) => {
                let found_hits = search(
                    engine.snapshot(),
                    engine.embedder(),
                    query,
                    scope_of(scope),
                    limit as usize,
                    similarity,
                );
                match found_hits {
                    Ok(hits) => carry(Body::Hits(hits)),
                    Err(e) => fail(e.0),
                }
            },
            Phase::Loading => loading_response(),
            Phase::Failed(reason) => failed_response(reason.as_str()),
            Phase::Empty => no_corpus_hits(),
        }
    }

    /// Answers a request for a record.
    pub fn get(&self, id: &str) -> (r: Reply)
        ensures
            match *self {
                Phase::Ready(engine) => r@ == get_reply(engine.snapshot_of()@, id@),
                _ => refusal_in(*self, Need::Record) == Some(r@),
            },
    {
        match self {
            Phase::Ready(engine) => {
                let snap = engine.snapshot();
                match snap.graph.get(id) {
                    Some(Record::Decision(d)) => carry(Body::Record(make_decision_reply(snap, d))),
                    Some(Record::Force(f)) => {
                        proof {
                            lemma_found_force(snap@.graph, id@, f@);
                        }
                        carry(Body::Record(make_force_reply(snap, f)))
                    },
                    None => fail("not found".to_string()),
                }
            },
            Phase::Loading => loading_response(),
            Phase::Failed(reason) => failed_response(reason.as_str()),
            Phase::Empty => no_corpus_not_found(),
        }
    }

    /// Answers a request for the reasons of a decision's staleness.
    pub fn why(&self, id: &str) -> (r: Reply)
        ensures
            match *self {
                Phase::Ready(engine) => r@ == why_reply(engine.snapshot_of()@, id@),
                _ => refusal_in(*self, Need::Record) == Some(r@),
            },
    {
        match self {
            Phase::Ready(engine) => match engine.snapshot().why(id) {
                Some(entries) => carry(Body::Chain(entries)),
                None => fail("not found".to_string()),
            },
            Phase::Loading => loading_response(),
            Phase::Failed(reason) => failed_response(reason.as_str()),
            Phase::Empty => no_corpus_not_found(),
        }
    }

    /// Answers a request for the stale report.
    pub fn stale_report(&self) -> (r: Reply)
        ensures
            match *self {
                Phase::Ready(engine) => r@ == report_reply(engine.snapshot_of()@),
                _ => refusal_in(*self, Need::Report) == Some(r@),
            },
    {
        match self {
            Phase::Ready(engine) => {
                let snap = engine.snapshot();
                carry(
                    Body::Stale {
                        entries: snap.stale_report(),
                        diagnostics: copy_diagnostics(&snap.diagnostics),
                    },
                )
            },
            Phase::Loading => loading_response(),
            Phase::Failed(reason) => failed_response(reason.as_str()),
            Phase::Empty => no_corpus_stale_report(),
        }
    }

    /// Answers a proposal.
    pub fn propose_decision<F: Fn(&Vector, &Vector) -> Single>(
        &self,
        params: ProposeParams,
        similarity: &F,
    ) -> (r: Reply)
        requires
            forall|a: &Vector, b: &Vector| call_requires(*similarity, (a, b)),
        ensures
            match *self {
                Phase::Ready(engine) => exists|hits: Seq<Seq<HitView>>, today: Seq<char>|
                    #![trigger composed(engine.snapshot_of()@.graph, proposal(params), hits, today)]
                    iso_day(today) is Some && nears_result(
                        &engine.snapshot_of(),
                        &engine.embedder_of(),
                        *similarity,
                        engine.config_of().dedup.warn,
                        proposal(params).forces,
                        hits,
                    ) && r@ == answer(
                        BodyView::Proposed(
                            composed(engine.snapshot_of()@.graph, proposal(params), hits, today),
                        ),
                    ),
                _ => refusal_in(*self, Need::Write) == Some(r@),
            },
    {
        match self {
            Phase::Ready(engine) => {
                let input = read_proposal(params);
                match engine.propose_decision(input, similarity) {
                    Ok(p) => carry(Body::Proposed(p)),
                    Err(e) => fail(e.0),
                }
            },
            Phase::Loading => loading_response(),
            Phase::Failed(reason) => failed_response(reason.as_str()),
            Phase::Empty => no_corpus_write_refused(),
        }
    }

    /// Answers a commit, given what it came to.
    pub fn committed(&self, outcome: Result<Receipt, String>) -> (r: Reply)
        ensures
            match (*self, outcome) {
                (Phase::Ready(_), Ok(receipt)) => r@ == answer(BodyView::Committed(receipt@)),
                (Phase::Ready(_), Err(m)) => r@ == error_reply(m@),
                _ => refusal_in(*self, Need::Write) == Some(r@),
            },
    {
        match self {
            Phase::Ready(_) => match outcome {
                Ok(receipt) => carry(Body::Committed(receipt)),
                Err(m) => fail(m),
            },
            Phase::Loading => loading_response(),
            Phase::Failed(reason) => failed_response(reason.as_str()),
            Phase::Empty => no_corpus_write_refused(),
        }
    }

    /// Answers a request to set a status, given what it came to.
    pub fn status_set(&self, outcome: Result<StatusReceipt, String>) -> (r: Reply)
        ensures
            match (*self, outcome) {
                (Phase::Ready(_), Ok(receipt)) => r@ == answer(BodyView::StatusSet(receipt@)),
                (Phase::Ready(_), Err(m)) => r@ == error_reply(m@),
                _ => refusal_in(*self, Need::Write) == Some(r@),
            },
    {
        match self {
            Phase::Ready(_) => match outcome {
                Ok(receipt) => carry(Body::StatusSet(receipt)),
                Err(m) => fail(m),
            },
            Phase::Loading => loading_response(),
            Phase::Failed(reason) => failed_response(reason.as_str()),
            Phase::Empty => no_corpus_write_refused(),
        }
    }

    /// Answers a request to read the corpus anew, given what reading it gave.
    pub fn reindexed(&self, rebuilt: Result<(), String>) -> (r: Reply)
        ensures
            match (*self, rebuilt) {
                (Phase::Ready(engine), Ok(_)) => r@ == status_reply(
                    "reindexed"@,
                    BodyView::Counts {
                        decisions: engine.snapshot_of()@.graph.decisions.len(),
                        forces: engine.snapshot_of()@.graph.forces.len(),
                        problems: engine.snapshot_of()@.diagnostics.len(),
                    },
                ),
                (Phase::Ready(_), Err(m)) => r@ == error_reply(m@),
                _ => refusal_in(*self, Need::Write) == Some(r@),
            },
    {
        match self {
            Phase::Ready(engine) => match rebuilt {
                Ok(_) => {
                    let snap = engine.snapshot();
                    let decisions = snap.graph.decisions();
                    let forces = snap.graph.forces();
                    proof {
                        assert(views(decisions@).len() == decisions@.len());
                        assert(views(forces@).len() == forces@.len());
                        assert(views(snap.diagnostics@).len() == snap.diagnostics@.len());
                    }
                    Reply {
                        error: None,
                        status: Some("reindexed".to_string()),
                        hint: None,
                        body: Body::Counts {
                            decisions: decisions.len(),
                            forces: forces.len(),
                            problems: snap.diagnostics.len(),
                        },
                    }
                },
                Err(m) => fail(m),
            },
            Phase::Loading => loading_response(),
            Phase::Failed(reason) => failed_response(reason.as_str()),
            Phase::Empty => no_corpus_write_refused(),
        }
    }

    /// Answers a request to set up a corpus where nothing is to be done: one is
    /// loaded, or is being loaded.
    pub fn init_begin(&self) -> (r: Option<Reply>)
        ensures
            match *self {
                Phase::Ready(_) => r is Some && r->0@ == status_reply(
                    "already loaded"@,
                    BodyView::Nothing,
                ),
                Phase::Loading => r is Some && r->0@ == loading_reply(),
                _ => r is None,
            },
    {
        match self {
            Phase::Ready(_) => Some(
                Reply {
                    error: None,
                    status: Some("already loaded".to_string()),
                    hint: None,
                    body: Body::Nothing,
                },
            ),
            Phase::Loading => Some(loading_response()),
            _ => None,
        }
    }

    /// Ends a request to set up a corpus, given how it went. Where it failed,
    /// the phase stays as it is; otherwise the corpus is loaded.
    pub fn init_end(&mut self, outcome: Init<E>) -> (r: Reply)
        ensures
            match outcome {
                Init::Loaded { engine, config_path } => *final(self) == Phase::Ready(engine) && r@
                    == status_reply("loaded"@, BodyView::Config(config_path@)),
                Init::Failed { step, message } => *final(self) == *old(self) && r@ == error_reply(
                    step_failure(step) + message@,
                ),
            },
    {
        match outcome {
            Init::Loaded { engine, config_path } => {
                *self = Phase::Ready(engine);
                Reply {
                    error: None,
                    status: Some("loaded".to_string()),
                    hint: None,
                    body: Body::Config(config_path),
                }
            },
            Init::Failed { step, message } => fail(join2(step_failure_text(step), message.as_str())),
        }
    }

    /// Ends the loading of a corpus at the start of the server.
    pub fn load_finished(&mut self, loaded: Result<Engine<E>, String>)
        ensures
            *final(self) == match loaded {
                Ok(engine) => Phase::Ready(engine),
                Err(reason) => Phase::Failed(reason),
            },
    {
        *self = match loaded {
            Ok(engine) => Phase::Ready(engine),
            Err(reason) => Phase::Failed(reason),
        };
    }
}

/// A step in setting up a corpus.
#[derive(Clone, Copy, PartialEq, Eq, Structural)]
pub enum Step {
    Scaffold,
    Config,
    Embedder,
    Engine,
}

/// How setting up a corpus went.
pub enum Init<E: Embedder> {
    Loaded { engine: Engine<E>, config_path: String },
    Failed { step: Step, message: String },
}

/// Whether the engine's step may end the set-up with `r`.
pub open spec fn engine_ends<E: Embedder, B: Fn(Config, E) -> Result<Engine<E>, String>>(
    build: B,
    path: String,
    cfg: Config,
    embedder: E,
    r: Init<E>,
) -> bool {
    exists|built: Result<Engine<E>, String>| #[trigger]
        call_ensures(build, (cfg, embedder), built) && r == match built {
            Ok(engine) => Init::Loaded { engine, config_path: path },
            Err(message) => Init::Failed { step: Step::Engine, message },
        }
}

/// Whether the embedder's step, and the one behind it, may end the set-up with `r`.
pub open spec fn embedder_ends<
    E: Embedder,
    M: Fn(&Config) -> Result<E, EmbedError>,
    B: Fn(Config, E) -> Result<Engine<E>, String>,
>(make: M, build: B, path: String, cfg: Config, r: Init<E>) -> bool {
    exists|made: Result<E, EmbedError>| #[trigger]
        call_ensures(make, (&cfg,), made) && match made {
            Ok(embedder) => engine_ends(build, path, cfg, embedder, r),
            Err(e) => r == Init::<E>::Failed { step: Step::Embedder, message: e.0 },
        }
}

/// Whether the configuration's step, and those behind it, may end the set-up
/// with `r`.
pub open spec fn config_ends<
    E: Embedder,
    C: Fn(&String) -> Result<Config, ConfigError>,
    M: Fn(&Config) -> Result<E, EmbedError>,
    B: Fn(Config, E) -> Result<Engine<E>, String>,
>(load: C, make: M, build: B, path: String, r: Init<E>) -> bool {
    exists|loaded: Result<Config, ConfigError>| #[trigger]
        call_ensures(load, (&path,), loaded) && match loaded {
            Ok(cfg) => embedder_ends(make, build, path, cfg, r),
            Err(e) => r matches Init::Failed { step, message } && step == Step::Config && message@
                == e@.message(),
        }
}

/// Sets up a corpus and loads it, in four steps: the corpus is made where there
/// is none, its configuration is loaded, the embedder is made, and the engine
/// is built. The first step that fails ends it, and is named.
pub fn set_up<
    E: Embedder,
    S: Fn() -> Result<String, String>,
    C: Fn(&String) -> Result<Config, ConfigError>,
    M: Fn(&Config) -> Result<E, EmbedError>,
    B: Fn(Config, E) -> Result<Engine<E>, String>,
>(scaffold: &S, load: &C, make: &M, build: &B) -> (r: Init<E>)
    requires
        call_requires(*scaffold, ()),
        forall|path: &String| call_requires(*load, (path,)),
        forall|cfg: &Config| call_requires(*make, (cfg,)),
        forall|cfg: Config, embedder: E| call_requires(*build, (cfg, embedder)),
    ensures
        exists|there: Result<String, String>| #[trigger]
            call_ensures(*scaffold, (), there) && match there {
                Ok(path) => config_ends(*load, *make, *build, path, r),
                Err(message) => r == Init::<E>::Failed { step: Step::Scaffold, message },
            },
{
    let there = scaffold();
    assert(call_ensures(*scaffold, (), there));
    let config_path = match there {
        Ok(p) => p,
        Err(message) => {
            return Init::Failed { step: Step::Scaffold, message };
        },
    };
    let loaded = load(&config_path);
    assert(call_ensures(*load, (&config_path,), loaded));
    let cfg = match loaded {
        Ok(c) => c,
        Err(e) => {
            return Init::Failed { step: Step::Config, message: e.message() };
        },
    };
    let made = make(&cfg);
    assert(call_ensures(*make, (&cfg,), made));
    let embedder = match made {
        Ok(m) => m,
        Err(e) => {
            let r = Init::Failed { step: Step::Embedder, message: e.0 };
            assert(embedder_ends(*make, *build, config_path, cfg, r));
            return r;
        },
    };
    let ghost (c, m) = (cfg, embedder);
    let built = build(cfg, embedder);
    assert(call_ensures(*build, (c, m), built));
    let r = match built {
        Ok(engine) => Init::Loaded { engine, config_path },
        Err(message) => Init::Failed { step: Step::Engine, message },
    };
    assert(engine_ends(*build, config_path, c, m, r));
    assert(embedder_ends(*make, *build, config_path, c, r));
    r
}

/// What is said of a step that failed.
pub open spec fn step_failure(step: Step) -> Seq<char> {
    match step {
        Step::Scaffold => "failed to scaffold corpus: "@,
        Step::Config => "failed to load config: "@,
        Step::Embedder => "failed to create embedder: "@,
        Step::Engine => "failed to initialize engine: "@,
    }
}

fn step_failure_text(step: Step) -> (r: &'static str)
    ensures
        r@ == step_failure(step),
{
    match step {
        Step::Scaffold => "failed to scaffold corpus: ",
        Step::Config => "failed to load config: ",
        Step::Embedder => "failed to create embedder: ",
        Step::Engine => "failed to initialize engine: ",
    }
}

/// A request is refused exactly where no corpus is loaded, whatever it is after.
pub proof fn law_refused_unless_ready<E: Embedder>(phase: Phase<E>, need: Need)
    ensures
        refusal_in(phase, need) is None <==> phase is Ready,
{
}

/// Where there is no corpus, every reply says how to get one: those that read
/// carry a hint, and those that write are refused with an error.
pub proof fn law_empty_replies_point_to_init(need: Need)
    ensures
        need == Need::Write ==> no_corpus_reply(need).error is Some,
        need != Need::Write ==> no_corpus_reply(need).hint == Some(no_corpus_hint()),
{
}

/// Whether the lists of those that refer to an id are right: a record stands in
/// the first where it is a decision that cites the id, in the second where it is
/// a force that depends on it, and in the third where it is a decision that
/// supersedes it.
pub open spec fn are_referrers(g: GraphView, id: Seq<char>, n: NeighboursView) -> bool {
    &&& forall|x: Seq<char>| #[trigger]
        n.cited_by.contains(x) <==> exists|i: int|
            0 <= i < g.decisions.len() && (#[trigger] g.decisions[i]).id == x
                && g.decisions[i].cites.contains(id)
    &&& forall|x: Seq<char>| #[trigger]
        n.depended_by.contains(x) <==> exists|i: int|
            0 <= i < g.forces.len() && (#[trigger] g.forces[i]).id == x
                && g.forces[i].depends_on.contains(id)
    &&& forall|x: Seq<char>| #[trigger]
        n.superseded_by.contains(x) <==> exists|i: int|
            0 <= i < g.decisions.len() && (#[trigger] g.decisions[i]).id == x
                && g.decisions[i].supersedes.contains(id)
}

proof fn lemma_referrers_of(g: GraphView, id: Seq<char>)
    ensures
        are_referrers(g, id, neighbours_of(g, id)),
{
    let n = neighbours_of(g, id);
    assert forall|x: Seq<char>| #[trigger] n.cited_by.contains(x) <==> exists|i: int|
        0 <= i < g.decisions.len() && (#[trigger] g.decisions[i]).id == x
            && g.decisions[i].cites.contains(id) by {
        law_cited_by(g, id, x);
    }
    assert forall|x: Seq<char>| #[trigger] n.depended_by.contains(x) <==> exists|i: int|
        0 <= i < g.forces.len() && (#[trigger] g.forces[i]).id == x
            && g.forces[i].depends_on.contains(id) by {
        law_depended_by(g, id, x);
    }
    assert forall|x: Seq<char>| #[trigger] n.superseded_by.contains(x) <==> exists|i: int|
        0 <= i < g.decisions.len() && (#[trigger] g.decisions[i]).id == x
            && g.decisions[i].supersedes.contains(id) by {
        law_superseded_by(g, id, x);
    }
}

/// A request for a decision is answered with the whole decision, the name of
/// its status, all that refers to it, the verdict on it, whether it is
/// superseded, and whether it is on the frontier.
pub proof fn law_decisions_are_answered_whole(s: SnapshotView, k: int)
    requires
        s.sound(),
        0 <= k < s.graph.decisions.len(),
    ensures
        ({
            let g = s.graph;
            let d = g.decisions[k];
            let r = get_reply(s, d.id);
            let taken = d.status == DecisionStatus::Deprecated || exists|i: int|
                0 <= i < g.decisions.len() && (#[trigger] g.decisions[i]).id != d.id
                    && g.decisions[i].supersedes.contains(d.id);
            &&& r.error is None
            &&& r.status is None
            &&& r.hint is None
            &&& match r.body {
                BodyView::Record(
                    RecordReplyView::Decision {
                        decision,
                        status,
                        neighbours,
                        verdict,
                        superseded,
                        on_frontier,
                    },
                ) => {
                    &&& decision == d
                    &&& status == match d.status {
                        DecisionStatus::Proposed => "proposed"@,
                        DecisionStatus::Accepted => "accepted"@,
                        DecisionStatus::Rejected => "rejected"@,
                        DecisionStatus::Deprecated => "deprecated"@,
                    }
                    &&& are_referrers(g, d.id, neighbours)
                    &&& verdict == Some(judged(g).premise[d.id])
                    &&& superseded == taken
                    &&& on_frontier == !taken
                },
                _ => false,
            }
        }),
{
    let g = s.graph;
    let d = g.decisions[k];
    law_records_are_found_by_their_ids(g, k, d.id);
    lemma_referrers_of(g, d.id);
    law_every_decision_is_judged(g, d.id);
    assert(g.decisions[k].id == d.id);
    law_superseded_are_deprecated_or_named(g, d.id);
    assert forall|i: int| 0 <= i < g.decisions.len() && (#[trigger] g.decisions[i]).id == d.id implies
        g.decisions[i] == d by {
        law_records_are_found_by_their_ids(g, i, d.id);
    }
}

/// A request for a force is answered with the whole force, the name of its last
/// status, and all that refers to it.
pub proof fn law_forces_are_answered_whole(s: SnapshotView, k: int)
    requires
        s.sound(),
        0 <= k < s.graph.forces.len(),
    ensures
        ({
            let g = s.graph;
            let f = g.forces[k];
            let r = get_reply(s, f.id);
            &&& r.error is None
            &&& r.status is None
            &&& r.hint is None
            &&& match r.body {
                BodyView::Record(
                    RecordReplyView::Force { force, current_status, neighbours },
                ) => {
                    &&& force == f
                    &&& current_status == match f.status_log.last().status {
                        ForceStatus::Holds => "holds"@,
                        ForceStatus::Changed => "changed"@,
                        ForceStatus::Retired => "retired"@,
                    }
                    &&& are_referrers(g, f.id, neighbours)
                },
                _ => false,
            }
        }),
{
    let f = s.graph.forces[k];
    law_records_are_found_by_their_ids(s.graph, k, f.id);
    lemma_referrers_of(s.graph, f.id);
}

/// A request for what does not exist is answered that it was not found: for a
/// record where no record has the id, and for reasons where no decision has it.
pub proof fn law_what_is_missing_is_not_found(s: SnapshotView, id: Seq<char>)
    requires
        s.sound(),
    ensures
        get_reply(s, id).error is Some <==> (forall|i: int|
            0 <= i < s.graph.decisions.len() ==> (#[trigger] s.graph.decisions[i]).id != id) && (
        forall|i: int|
            0 <= i < s.graph.forces.len() ==> (#[trigger] s.graph.forces[i]).id != id),
        get_reply(s, id).error is Some ==> get_reply(s, id).error == Some("not found"@)
            && get_reply(s, id).body is Nothing,
        why_reply(s, id).error is Some <==> forall|i: int|
            0 <= i < s.graph.decisions.len() ==> (#[trigger] s.graph.decisions[i]).id != id,
        why_reply(s, id).error is Some ==> why_reply(s, id).error == Some("not found"@)
            && why_reply(s, id).body is Nothing,
        why_reply(s, id).error is None ==> why_reply(s, id).body == BodyView::Chain(
            why_of(s, id)->0,
        ),
{
    law_records_are_found_by_their_ids(s.graph, 0, id);
    law_why_tells_of_ways(s, id);
}

/// A request for the stale report is answered with all of it: it tells of a
/// decision and of a force exactly where the decision is on the frontier, the
/// force has fallen, and a chain of references leads from the force to the
/// decision. All that is wrong with the corpus is told with it.
pub proof fn law_reports_are_answered_whole(s: SnapshotView, i: int, k: int)
    requires
        s.sound(),
        0 <= i < s.graph.decisions.len(),
        0 <= k < s.graph.forces.len(),
    ensures
        report_reply(s).error is None,
        match report_reply(s).body {
            BodyView::Stale { entries, diagnostics } => {
                let d = s.graph.decisions[i];
                let f = s.graph.forces[k];
                &&& diagnostics == s.diagnostics
                &&& (exists|m: int|
                    0 <= m < entries.len() && (#[trigger] entries[m]).decision_id == d.id
                        && entries[m].fallen_force_id == f.id) <==> judged(
                    s.graph,
                ).frontier.contains(d.id) && f.status_log.last().status != ForceStatus::Holds
                    && exists|w: Seq<Seq<char>>| is_chain(s.graph, f.id, d.id, w)
            },
            _ => false,
        },
{
    law_stale_report_leaves_nothing_out(s, i, k);
    let report = sorted::<StaleEntry>(entries_among(s, s.verdicts.frontier));
    let d = s.graph.decisions[i];
    let f = s.graph.forces[k];
    if exists|m: int|
        0 <= m < report.len() && (#[trigger] report[m]).decision_id == d.id
            && report[m].fallen_force_id == f.id {
        let m = choose|m: int|
            0 <= m < report.len() && (#[trigger] report[m]).decision_id == d.id
                && report[m].fallen_force_id == f.id;
        assert(report_reply(s).body->entries[m].decision_id == d.id);
    }
}

/// The words for scopes: two are known, and everything else, or nothing, is the
/// whole corpus.
pub proof fn law_scopes_are_named(word: Seq<char>)
    ensures
        scope_named(Some("force"@)) == Scope::Force,
        scope_named(Some("decision"@)) == Scope::Decision,
        scope_named(None) == Scope::Both,
        word != "force"@ && word != "decision"@ ==> scope_named(Some(word)) == Scope::Both,
{
    reveal_strlit("force");
    reveal_strlit("decision");
    assert("force"@.len() == 5 && "decision"@.len() == 8);
}

/// The proposal of a request has all that the request says, each force in its
/// place. What the request leaves out is empty, and a force is not said to be
/// new unless the request says so.
pub proof fn law_proposals_are_read_whole(p: ProposeParams)
    ensures
        ({
            let q = proposal(p);
            &&& q.title == p.title@
            &&& match p.body {
                Some(b) => q.body == b@,
                None => q.body.len() == 0,
            }
            &&& match p.supersedes {
                Some(v) => q.supersedes == views(v@),
                None => q.supersedes.len() == 0,
            }
            &&& match p.relates {
                Some(v) => q.relates == views(v@),
                None => q.relates.len() == 0,
            }
            &&& match p.tags {
                Some(v) => q.tags == views(v@),
                None => q.tags.len() == 0,
            }
            &&& q.forces.len() == p.forces.len()
            &&& forall|i: int|
                0 <= i < p.forces.len() ==> match #[trigger] p.forces@[i] {
                    ForceSpec::Existing { existing_id } => q.forces[i] == (
                    ForceInputView::Existing { id: existing_id@ }),
                    ForceSpec::New { title, body, force_new } => {
                        &&& q.forces[i] is New
                        &&& q.forces[i]->title == title@
                        &&& match body {
                            Some(b) => q.forces[i]->body == b@,
                            None => q.forces[i]->body.len() == 0,
                        }
                        &&& q.forces[i]->force_new <==> force_new == Some(true)
                    },
                }
        }),
{
}

/// A search that is answered tells of a force of the corpus exactly where it is
/// in scope, has a vector, has not been retired and is not superseded, as long
/// as no limit is set. Where the embedder fails, its message is the answer.
pub proof fn law_searches_are_answered<E: Embedder, F: Fn(&Vector, &Vector) -> Single>(
    engine: Engine<E>,
    query: &str,
    scope: Scope,
    limit: int,
    similarity: F,
    r: ReplyView,
    k: int,
)
    requires
        searches(engine, query, scope, limit, similarity, r),
        distinct_ids(engine.snapshot_of()@.graph),
        0 <= k < engine.snapshot_of()@.graph.forces.len(),
        limit >= 0,
    ensures
        exists|q: Result<Vector, EmbedError>|
            {
                let s = engine.snapshot_of()@;
                let f = s.graph.forces[k];
                let last = f.status_log.last().status;
                &&& #[trigger] call_ensures(E::embed_query, (&engine.embedder_of(), query), q)
                &&& r.status is None
                &&& r.hint is None
                &&& match q {
                    Err(e) => r.error == Some(e@) && r.body is Nothing,
                    Ok(v) => {
                        &&& r.error is None
                        &&& match r.body {
                            BodyView::Hits(hits) => {
                                &&& limit > 0 ==> hits.len() <= limit
                                &&& limit == 0 ==> ((exists|m: int|
                                    0 <= m < hits.len() && (#[trigger] hits[m]).id == f.id) <==> (
                                scope == Scope::Force || scope == Scope::Both)
                                    && s.vectors.contains_key(f.id) && s.vectors[f.id].len() > 0
                                    && last != ForceStatus::Retired && f.superseded_by is None)
                            },
                            _ => false,
                        }
                    },
                }
            },
{
    let s = engine.snapshot_of()@;
    let q = choose|q: Result<Vector, EmbedError>| #[trigger]
        call_ensures(E::embed_query, (&engine.embedder_of(), query), q) && match q {
            Ok(v) => exists|scores: Seq<Single>| #[trigger]
                scores_of(similarity, &engine.snapshot_of(), v, scope, scores) && r == answer(
                    BodyView::Hits(found(s, scope, limit, scores)),
                ),
            Err(e) => r == error_reply(e@),
        };
    if let Ok(v) = q {
        let scores = choose|scores: Seq<Single>| #[trigger]
            scores_of(similarity, &engine.snapshot_of(), v, scope, scores) && r == answer(
                BodyView::Hits(found(s, scope, limit, scores)),
            );
        law_search_finds_forces_that_are_not_retired(s, scope, scores, k);
        if limit > 0 {
            law_limits_cut_exactly(s, scope, limit, scores);
        }
    }
    assert(call_ensures(E::embed_query, (&engine.embedder_of(), query), q));
}

/// What is answered where no corpus is loaded: while it is loading, that it is;
/// where it failed, why; and where there is none, nothing was found, or nothing
/// can be written.
pub proof fn law_refusals_say_how_things_stand<E: Embedder>(
    phase: Phase<E>,
    need: Need,
    r: ReplyView,
)
    requires
        refusal_in(phase, need) == Some(r),
    ensures
        match phase {
            Phase::Ready(_) => false,
            Phase::Loading => r.status == Some("loading"@) && r.error is None && r.hint == Some(
                "The corpus is still loading (the embedding model may be downloading). Retry in a few seconds."@,
            ) && r.body is Nothing,
            Phase::Failed(reason) => r.error == Some("corpus failed to load: "@ + reason@)
                && r.status is None && r.hint == Some(
                "Fix the problem and restart the forge-mcp server."@,
            ) && r.body is Nothing,
            Phase::Empty => match need {
                Need::Hits => r.error is None && r.hint == Some(
                    "No forge.toml in this project. Call the `init` tool (after user assent) to scaffold a corpus."@,
                ) && r.body == BodyView::Hits(
                    Seq::empty(),
                ),
                Need::Record => r.error == Some("not found"@) && r.hint == Some(
                    "No forge.toml in this project. Call the `init` tool (after user assent) to scaffold a corpus."@,
                ) && r.body is Nothing,
                Need::Report => r.error is None && r.hint == Some(
                    "No forge.toml in this project. Call the `init` tool (after user assent) to scaffold a corpus."@,
                ) && r.body == (BodyView::Stale {
                    entries: Seq::empty(),
                    diagnostics: Seq::empty(),
                }),
                Need::Write => r.error == Some(
                    "no corpus; call `init` first (after user assent)"@,
                ) && r.body is Nothing,
            },
        },
{
}

/// What is said of each step that failed, and what is said of each error in a
/// configuration.
pub proof fn law_failures_name_the_step(m: Seq<char>)
    ensures
        step_failure(Step::Scaffold) == "failed to scaffold corpus: "@,
        step_failure(Step::Config) == "failed to load config: "@,
        step_failure(Step::Embedder) == "failed to create embedder: "@,
        step_failure(Step::Engine) == "failed to initialize engine: "@,
        ConfigErrorView::Io(m).message() == "io error: "@ + m,
        ConfigErrorView::Parse(m).message() == "parse error: "@ + m,
        ConfigErrorView::MissingRoots.message() == "missing required field: roots"@,
        ConfigErrorView::Other(m).message() == m,
{
}

/// A set-up that succeeds went through all steps: the configuration was loaded
/// from the corpus's file, the embedder was made for it, and the engine built of
/// both is the one that is loaded. One that fails names the step that failed,
/// with its message, and no later step is named.
pub proof fn law_set_ups_go_through_all_steps<
    E: Embedder,
    C: Fn(&String) -> Result<Config, ConfigError>,
    M: Fn(&Config) -> Result<E, EmbedError>,
    B: Fn(Config, E) -> Result<Engine<E>, String>,
>(load: C, make: M, build: B, path: String, r: Init<E>)
    requires
        config_ends(load, make, build, path, r),
    ensures
        exists|loaded: Result<Config, ConfigError>|
            {
                &&& #[trigger] call_ensures(load, (&path,), loaded)
                &&& match loaded {
                    Err(e) => r is Failed && r->step == Step::Config && r->message@
                        == e@.message(),
                    Ok(cfg) => exists|made: Result<E, EmbedError>|
                        {
                            &&& #[trigger] call_ensures(make, (&cfg,), made)
                            &&& match made {
                                Err(e) => r is Failed && r->step == Step::Embedder && r->message@
                                    == e@,
                                Ok(embedder) => exists|built: Result<Engine<E>, String>|
                                    {
                                        &&& #[trigger] call_ensures(build, (cfg, embedder), built)
                                        &&& match built {
                                            Err(m) => r is Failed && r->step == Step::Engine
                                                && r->message@ == m@,
                                            Ok(engine) => r is Loaded && r->engine == engine
                                                && r->config_path == path,
                                        }
                                    },
                            }
                        },
                }
            },
{
}

/// A reply that says how things stand says nothing else, but for what it
/// carries.
pub proof fn law_status_replies_are_no_errors(status: Seq<char>, body: BodyView)
    ensures
        status_reply(status, body).error is None,
        status_reply(status, body).hint is None,
        status_reply(status, body).status == Some(status),
        status_reply(status, body).body == body,
{
}

} // verus!
