//! Recall: searching the present, and finding forces that are nearly the same.
use vstd::prelude::*;
use crate::embed::{EmbedError, Embedder};
use crate::graph::{distinct_ids, GraphView, RecordView};
use crate::order::{
    in_order, law_sorted_in_order, law_sorted_rearranges, lemma_sorted_contains,
    lemma_text_le_total, lemma_text_le_transitive, sort, sorted, text_le, text_not_after, Ordered,
};
use crate::record::{
    copy_opt, opt_view, Decision, DecisionStatus, DecisionView, Force, ForceStatus, ForceView,
};
use crate::report::{force_status_name, status_name};
use crate::score::{Double, Single, Vector};
use crate::snapshot::{Snapshot, SnapshotView};
use crate::text::{lemma_push_contains, views};
use vstd::hash_set::StringHashSet;

verus! {

/// What to search for.
#[derive(Debug, Clone, Copy, PartialEq, Eq, Structural)]
pub enum Scope {
    Force,
    Decision,
    Both,
}

/// A record that resembles what was searched for.
#[derive(Debug)]
pub struct Hit {
    pub id: String,
    pub title: String,
    pub score: Single,
    pub kind: String,
    pub status: String,
    pub superseded_by: Option<String>,
}

/// What a [`Hit`] stands for.
#[verifier::ext_equal]
pub struct HitView {
    pub id: Seq<char>,
    pub title: Seq<char>,
    pub score: Single,
    pub kind: Seq<char>,
    pub status: Seq<char>,
    pub superseded_by: Option<Seq<char>>,
}

impl View for Hit {
    type V = HitView;

    open spec fn view(&self) -> HitView {
        HitView {
            id: self.id@,
            title: self.title@,
            score: self.score,
            kind: self.kind@,
            status: self.status@,
            superseded_by: opt_view(self.superseded_by),
        }
    }
}

impl Clone for Hit {
    fn clone(&self) -> (r: Self)
        ensures
            r@ == self@,
    {
        Hit {
            id: self.id.clone(),
            title: self.title.clone(),
            score: self.score,
            kind: self.kind.clone(),
            status: self.status.clone(),
            superseded_by: copy_opt(&self.superseded_by),
        }
    }
}

impl Ordered for Hit {
    /// The highest score first, then by id.
    open spec fn le(a: HitView, b: HitView) -> bool {
        if a.score.key() != b.score.key() {
            a.score.key() > b.score.key()
        } else {
            text_le(a.id, b.id)
        }
    }

    proof fn le_total(a: HitView, b: HitView) {
        lemma_text_le_total(a.id, b.id);
    }

    proof fn le_transitive(a: HitView, b: HitView, c: HitView) {
        if text_le(a.id, b.id) && text_le(b.id, c.id) {
            lemma_text_le_transitive(a.id, b.id, c.id);
        }
    }

    fn not_after(&self, other: &Self) -> (r: bool) {
        let a: i64 = self.score.rank();
        let b: i64 = other.score.rank();
        if a != b {
            a > b
        } else {
            text_not_after(self.id.as_str(), other.id.as_str())
        }
    }
}

/// The name of a decision's status.
pub open spec fn decision_status_view(s: DecisionStatus) -> Seq<char> {
    match s {
        DecisionStatus::Proposed => "proposed"@,
        DecisionStatus::Accepted => "accepted"@,
        DecisionStatus::Rejected => "rejected"@,
        DecisionStatus::Deprecated => "deprecated"@,
    }
}

/// The name of a decision's status.
pub fn decision_status_name(s: DecisionStatus) -> (r: &'static str)
    ensures
        r@ == decision_status_view(s),
{
    match s {
        DecisionStatus::Proposed => "proposed",
        DecisionStatus::Accepted => "accepted",
        DecisionStatus::Rejected => "rejected",
        DecisionStatus::Deprecated => "deprecated",
    }
}

/// A decision as a hit.
pub open spec fn decision_hit(d: DecisionView, score: Single) -> HitView {
    HitView {
        id: d.id,
        title: d.title,
        score,
        kind: "decision"@,
        status: decision_status_view(d.status),
        superseded_by: None,
    }
}

/// A force as a hit.
pub open spec fn force_hit(f: ForceView, score: Single) -> HitView {
    HitView {
        id: f.id,
        title: f.title,
        score,
        kind: "force"@,
        status: status_name(f.current_status()),
        superseded_by: f.superseded_by,
    }
}

fn make_decision_hit(d: &Decision, score: Single) -> (r: Hit)
    ensures
        r@ == decision_hit(d@, score),
{
    Hit {
        id: d.id.clone(),
        title: d.title.clone(),
        score,
        kind: "decision".to_string(),
        status: decision_status_name(d.status).to_string(),
        superseded_by: None,
    }
}

fn make_force_hit(f: &Force, score: Single) -> (r: Hit)
    requires
        f@.status_log.len() > 0,
    ensures
        r@ == force_hit(f@, score),
{
    Hit {
        id: f.id.clone(),
        title: f.title.clone(),
        score,
        kind: "force".to_string(),
        status: force_status_name(f.current_status()).to_string(),
        superseded_by: copy_opt(&f.superseded_by),
    }
}

/// Whether a record has a vector that can resemble anything.
pub open spec fn has_vector(s: SnapshotView, id: Seq<char>) -> bool {
    s.vectors.contains_key(id) && s.vectors[id].len() > 0
}

/// Whether a record is searched: it is in the scope, it has a vector, and it
/// is of the present. Of the present are the decisions of the frontier, and the
/// forces that are neither retired nor superseded.
pub open spec fn is_searched(s: SnapshotView, r: RecordView, scope: Scope) -> bool {
    has_vector(s, r.id()) && match r {
        RecordView::Decision(d) => scope != Scope::Force && s.verdicts.frontier.contains(d.id),
        RecordView::Force(f) => scope != Scope::Decision && f.current_status()
            != ForceStatus::Retired && f.superseded_by is None,
    }
}

/// A record as a hit.
pub open spec fn record_hit(r: RecordView, score: Single) -> HitView {
    match r {
        RecordView::Decision(d) => decision_hit(d, score),
        RecordView::Force(f) => force_hit(f, score),
    }
}

/// The hits among the first `n` records, given the score of each.
pub open spec fn hits_among(s: SnapshotView, scope: Scope, scores: Seq<Single>, n: int) -> Seq<
    HitView,
>
    decreases n,
{
    if n <= 0 {
        Seq::empty()
    } else {
        let before = hits_among(s, scope, scores, n - 1);
        let r = s.graph.records()[n - 1];
        if is_searched(s, r, scope) {
            before.push(record_hit(r, scores[n - 1]))
        } else {
            before
        }
    }
}

/// The first `limit` elements, or all where the limit is zero.
pub open spec fn limited<A>(s: Seq<A>, limit: int) -> Seq<A> {
    if 0 < limit < s.len() {
        s.take(limit)
    } else {
        s
    }
}

/// What a search finds, given the score of each record: the hits, best first.
pub open spec fn found(s: SnapshotView, scope: Scope, limit: int, scores: Seq<Single>) -> Seq<
    HitView,
> {
    limited(
        sorted::<Hit>(hits_among(s, scope, scores, s.graph.records().len() as int)),
        limit,
    )
}

/// The forces that are nearly the same as something, among the first `n`,
/// given the score of each force.
pub open spec fn near_among(s: SnapshotView, warn: Double, scores: Seq<Single>, n: int) -> Seq<
    HitView,
>
    decreases n,
{
    if n <= 0 {
        Seq::empty()
    } else {
        let before = near_among(s, warn, scores, n - 1);
        let f = s.graph.forces[n - 1];
        if has_vector(s, f.id) && scores[n - 1].at_least(warn) {
            before.push(force_hit(f, scores[n - 1]))
        } else {
            before
        }
    }
}

/// The forces, whatever their status, that are nearly the same as something,
/// best first.
pub open spec fn near(s: SnapshotView, warn: Double, scores: Seq<Single>) -> Seq<HitView> {
    sorted::<Hit>(near_among(s, warn, scores, s.graph.forces.len() as int))
}

fn vector_of<'a>(snap: &'a Snapshot, id: &str) -> (r: Option<&'a Vector>)
    ensures
        match r {
            Some(v) => has_vector(snap@, id@) && snap.vectors@.contains_key(id@) && *v
                == snap.vectors@[id@],
            None => !has_vector(snap@, id@),
        },
{
    match snap.vectors.get(id) {
        Some(v) => {
            assert(snap@.vectors[id@] == v@);
            if v.len() == 0 {
                None
            } else {
                Some(v)
            }
        },
        None => None,
    }
}

fn frontier_set(snap: &Snapshot) -> (r: StringHashSet)
    ensures
        forall|id: Seq<char>| #[trigger] r@.contains(id) <==> snap@.verdicts.frontier.contains(id),
{
    let ids = &snap.verdicts.frontier;
    let ghost all = views(ids@);
    let mut r = StringHashSet::new();
    for i in 0..ids.len()
        invariant
            ids == &snap.verdicts.frontier,
            all == views(ids@),
            forall|id: Seq<char>| #[trigger] r@.contains(id) <==> all.take(i as int).contains(id),
    {
        proof {
            assert(all.take(i + 1) =~= all.take(i as int).push(ids@[i as int]@));
            lemma_push_contains(all.take(i as int), ids@[i as int]@);
        }
        r.insert(ids[i].clone());
    }
    assert(all.take(all.len() as int) =~= all);
    r
}

fn decision_searched(snap: &Snapshot, frontier: &StringHashSet, d: &Decision, scope: Scope) -> (r:
    bool)
    requires
        forall|id: Seq<char>| #[trigger]
            frontier@.contains(id) <==> snap@.verdicts.frontier.contains(id),
    ensures
        r == is_searched(snap@, RecordView::Decision(d@), scope),
{
    scope != Scope::Force && frontier.contains(d.id.as_str()) && vector_of(
        snap,
        d.id.as_str(),
    ).is_some()
}

fn force_searched(snap: &Snapshot, f: &Force, scope: Scope) -> (r: bool)
    requires
        f@.status_log.len() > 0,
    ensures
        r == is_searched(snap@, RecordView::Force(f@), scope),
{
    scope != Scope::Decision && f.current_status() != ForceStatus::Retired
        && f.superseded_by.is_none() && vector_of(snap, f.id.as_str()).is_some()
}

/// Ranks the records of a snapshot, given the score of each, in the order of
/// the graph's records.
pub fn rank(snap: &Snapshot, scope: Scope, limit: usize, scores: &Vec<Single>) -> (r: Vec<Hit>)
    requires
        snap@.sound(),
        scores.len() == snap@.graph.records().len(),
    ensures
        views(r@) == found(snap@, scope, limit as int, scores@),
{
    let ghost s = snap@;
    let ghost all = s.graph.records();
    let frontier = frontier_set(snap);
    let decisions = snap.graph.decisions();
    let forces = snap.graph.forces();
    let count: usize = decisions.len();
    proof {
        assert(views(decisions@).len() == decisions@.len());
        assert(views(forces@).len() == forces@.len());
    }
    let mut hits: Vec<Hit> = Vec::new();
    assert(views(hits@) =~= hits_among(s, scope, scores@, 0));
    for i in 0..decisions.len()
        invariant
            s == snap@,
            all == s.graph.records(),
            views(decisions@) == s.graph.decisions,
            decisions.len() == s.graph.decisions.len(),
            scores.len() == all.len(),
            forall|id: Seq<char>| #[trigger]
                frontier@.contains(id) <==> s.verdicts.frontier.contains(id),
            views(hits@) == hits_among(s, scope, scores@, i as int),
    {
        let ghost before = views(hits@);
        let d = decisions[i];
        proof {
            assert(views(decisions@)[i as int] == d@);
            assert(all[i as int] == RecordView::Decision(d@));
        }
        if decision_searched(snap, &frontier, d, scope) {
            let hit = make_decision_hit(d, scores[i]);
            hits.push(hit);
            assert(views(hits@) =~= before.push(hit@));
        }
    }
    for i in 0..forces.len()
        invariant
            s == snap@,
            s.sound(),
            all == s.graph.records(),
            views(forces@) == s.graph.forces,
            forces.len() == s.graph.forces.len(),
            count == s.graph.decisions.len(),
            scores.len() == all.len(),
            views(hits@) == hits_among(s, scope, scores@, count + i),
    {
        let ghost before = views(hits@);
        let f = forces[i];
        proof {
            assert(views(forces@)[i as int] == f@);
            assert(all[count + i] == RecordView::Force(f@));
            assert(s.graph.forces[i as int].status_log.len() > 0);
        }
        if force_searched(snap, f, scope) {
            let hit = make_force_hit(f, scores[count + i]);
            hits.push(hit);
            assert(views(hits@) =~= before.push(hit@));
        }
    }
    let mut out = sort(hits);
    assert(views(out@).len() == out@.len());
    if limit > 0 && out.len() > limit {
        let ghost full = views(out@);
        out.truncate(limit);
        assert(views(out@) =~= full.take(limit as int));
    }
    out
}

/// Whether `scores` may be what `similarity` makes of a query and the records
/// that are searched.
pub open spec fn scores_of<F: Fn(&Vector, &Vector) -> Single>(
    similarity: F,
    snap: &Snapshot,
    query: Vector,
    scope: Scope,
    scores: Seq<Single>,
) -> bool {
    let all = snap@.graph.records();
    &&& scores.len() == all.len()
    &&& forall|i: int|
        0 <= i < all.len() && is_searched(snap@, #[trigger] all[i], scope) ==> call_ensures(
            similarity,
            (&query, &snap.vectors@[all[i].id()]),
            scores[i],
        )
}

/// Scores the records that are searched.
fn score_records<F: Fn(&Vector, &Vector) -> Single>(
    snap: &Snapshot,
    query: &Vector,
    scope: Scope,
    similarity: &F,
) -> (r: Vec<Single>)
    requires
        snap@.sound(),
        forall|a: &Vector, b: &Vector| call_requires(*similarity, (a, b)),
    ensures
        scores_of(*similarity, snap, *query, scope, r@),
{
    let ghost s = snap@;
    let ghost all = s.graph.records();
    let frontier = frontier_set(snap);
    let decisions = snap.graph.decisions();
    let forces = snap.graph.forces();
    let count: usize = decisions.len();
    proof {
        assert(views(decisions@).len() == decisions@.len());
        assert(views(forces@).len() == forces@.len());
    }
    let none = Single { bits: 0 };
    let mut r: Vec<Single> = Vec::new();
    for i in 0..decisions.len()
        invariant
            s == snap@,
            all == s.graph.records(),
            views(decisions@) == s.graph.decisions,
            decisions.len() == s.graph.decisions.len(),
            forall|a: &Vector, b: &Vector| call_requires(*similarity, (a, b)),
            forall|id: Seq<char>| #[trigger]
                frontier@.contains(id) <==> s.verdicts.frontier.contains(id),
            r.len() == i,
            forall|j: int|
                0 <= j < i && is_searched(s, #[trigger] all[j], scope) ==> call_ensures(
                    *similarity,
                    (query, &snap.vectors@[all[j].id()]),
                    r@[j],
                ),
    {
        let ghost before = r@;
        let d = decisions[i];
        proof {
            assert(views(decisions@)[i as int] == d@);
            assert(all[i as int] == RecordView::Decision(d@));
        }
        let mut score = none;
        if decision_searched(snap, &frontier, d, scope) {
            if let Some(v) = vector_of(snap, d.id.as_str()) {
                score = similarity(query, v);
            }
        }
        r.push(score);
        assert(forall|j: int| 0 <= j < i ==> #[trigger] r@[j] == before[j]);
    }
    for i in 0..forces.len()
        invariant
            s == snap@,
            s.sound(),
            all == s.graph.records(),
            views(forces@) == s.graph.forces,
            forces.len() == s.graph.forces.len(),
            count == s.graph.decisions.len(),
            forall|a: &Vector, b: &Vector| call_requires(*similarity, (a, b)),
            r.len() == count + i,
            forall|j: int|
                0 <= j < count + i && is_searched(s, #[trigger] all[j], scope) ==> call_ensures(
                    *similarity,
                    (query, &snap.vectors@[all[j].id()]),
                    r@[j],
                ),
    {
        let ghost before = r@;
        let f = forces[i];
        proof {
            assert(views(forces@)[i as int] == f@);
            assert(all[count + i] == RecordView::Force(f@));
            assert(s.graph.forces[i as int].status_log.len() > 0);
        }
        let mut score = none;
        if force_searched(snap, f, scope) {
            if let Some(v) = vector_of(snap, f.id.as_str()) {
                score = similarity(query, v);
            }
        }
        r.push(score);
        assert(forall|j: int| 0 <= j < count + i ==> #[trigger] r@[j] == before[j]);
    }
    r
}

/// Searches the present for what resembles a text. `similarity` says how much
/// two vectors resemble each other; a limit of zero is none.
pub fn search<E: Embedder, F: Fn(&Vector, &Vector) -> Single>(
    snap: &Snapshot,
    embedder: &E,
    query: &str,
    scope: Scope,
    limit: usize,
    similarity: &F,
) -> (r: Result<Vec<Hit>, EmbedError>)
    requires
        snap@.sound(),
        forall|a: &Vector, b: &Vector| call_requires(*similarity, (a, b)),
    ensures
        exists|q: Result<Vector, EmbedError>| #[trigger]
            call_ensures(E::embed_query, (embedder, query), q) && match q {
                Ok(v) => r is Ok && exists|scores: Seq<Single>| #[trigger]
                    scores_of(*similarity, snap, v, scope, scores) && views(r->Ok_0@) == found(
                        snap@,
                        scope,
                        limit as int,
                        scores,
                    ),
                Err(e) => r is Err && r->Err_0 == e,
            },
{
    let q = embedder.embed_query(query);
    assert(call_ensures(E::embed_query, (embedder, query), q));
    match q {
        Ok(v) => {
            let scores = score_records(snap, &v, scope, similarity);
            assert(scores_of(*similarity, snap, v, scope, scores@));
            Ok(rank(snap, scope, limit, &scores))
        },
        Err(e) => Err(e),
    }
}

/// Picks the forces that are nearly the same as something, given the score of
/// each force.
pub fn pick_near(snap: &Snapshot, warn: Double, scores: &Vec<Single>) -> (r: Vec<Hit>)
    requires
        snap@.sound(),
        scores.len() == snap@.graph.forces.len(),
    ensures
        views(r@) == near(snap@, warn, scores@),
{
    let ghost s = snap@;
    let forces = snap.graph.forces();
    assert(views(forces@).len() == forces@.len());
    let mut hits: Vec<Hit> = Vec::new();
    assert(views(hits@) =~= near_among(s, warn, scores@, 0));
    for i in 0..forces.len()
        invariant
            s == snap@,
            s.sound(),
            views(forces@) == s.graph.forces,
            forces.len() == s.graph.forces.len(),
            scores.len() == forces.len(),
            views(hits@) == near_among(s, warn, scores@, i as int),
    {
        let ghost before = views(hits@);
        let f = forces[i];
        proof {
            assert(views(forces@)[i as int] == f@);
            assert(s.graph.forces[i as int].status_log.len() > 0);
        }
        if vector_of(snap, f.id.as_str()).is_some() && scores[i].reaches(warn) {
            let hit = make_force_hit(f, scores[i]);
            hits.push(hit);
            assert(views(hits@) =~= before.push(hit@));
        }
    }
    sort(hits)
}

/// Whether `scores` may be what `similarity` makes of a query and the forces.
pub open spec fn force_scores_of<F: Fn(&Vector, &Vector) -> Single>(
    similarity: F,
    snap: &Snapshot,
    query: Vector,
    scores: Seq<Single>,
) -> bool {
    let all = snap@.graph.forces;
    &&& scores.len() == all.len()
    &&& forall|i: int|
        0 <= i < all.len() && has_vector(snap@, (#[trigger] all[i]).id) ==> call_ensures(
            similarity,
            (&query, &snap.vectors@[all[i].id]),
            scores[i],
        )
}

fn score_forces<F: Fn(&Vector, &Vector) -> Single>(
    snap: &Snapshot,
    query: &Vector,
    similarity: &F,
) -> (r: Vec<Single>)
    requires
        forall|a: &Vector, b: &Vector| call_requires(*similarity, (a, b)),
    ensures
        force_scores_of(*similarity, snap, *query, r@),
{
    let ghost s = snap@;
    let ghost all = s.graph.forces;
    let forces = snap.graph.forces();
    assert(views(forces@).len() == forces@.len());
    let none = Single { bits: 0 };
    let mut r: Vec<Single> = Vec::new();
    for i in 0..forces.len()
        invariant
            s == snap@,
            all == s.graph.forces,
            views(forces@) == all,
            forces.len() == all.len(),
            forall|a: &Vector, b: &Vector| call_requires(*similarity, (a, b)),
            r.len() == i,
            forall|j: int|
                0 <= j < i && has_vector(s, (#[trigger] all[j]).id) ==> call_ensures(
                    *similarity,
                    (query, &snap.vectors@[all[j].id]),
                    r@[j],
                ),
    {
        let ghost before = r@;
        let f = forces[i];
        assert(views(forces@)[i as int] == f@);
        let score = match vector_of(snap, f.id.as_str()) {
            Some(v) => similarity(query, v),
            None => none,
        };
        r.push(score);
        assert(forall|j: int| 0 <= j < i ==> #[trigger] r@[j] == before[j]);
    }
    r
}

/// The forces, whatever their status, whose text resembles a title at least as
/// much as `warn`, best first.
pub fn near_matches<E: Embedder, F: Fn(&Vector, &Vector) -> Single>(
    snap: &Snapshot,
    embedder: &E,
    force_title: &str,
    warn: Double,
    similarity: &F,
) -> (r: Result<Vec<Hit>, EmbedError>)
    requires
        snap@.sound(),
        forall|a: &Vector, b: &Vector| call_requires(*similarity, (a, b)),
    ensures
        exists|q: Result<Vector, EmbedError>| #[trigger]
            call_ensures(E::embed_query, (embedder, force_title), q) && match q {
                Ok(v) => r is Ok && exists|scores: Seq<Single>| #[trigger]
                    force_scores_of(*similarity, snap, v, scores) && views(r->Ok_0@) == near(
                        snap@,
                        warn,
                        scores,
                    ),
                Err(e) => r is Err && r->Err_0 == e,
            },
{
    let q = embedder.embed_query(force_title);
    assert(call_ensures(E::embed_query, (embedder, force_title), q));
    match q {
        Ok(v) => {
            let scores = score_forces(snap, &v, similarity);
            assert(force_scores_of(*similarity, snap, v, scores@));
            Ok(pick_near(snap, warn, &scores))
        },
        Err(e) => Err(e),
    }
}

proof fn lemma_hits_among(s: SnapshotView, scope: Scope, scores: Seq<Single>, n: int, h: HitView)
    requires
        0 <= n <= s.graph.records().len(),
    ensures
        hits_among(s, scope, scores, n).contains(h) <==> exists|i: int|
            0 <= i < n && is_searched(s, #[trigger] s.graph.records()[i], scope) && h == record_hit(
                s.graph.records()[i],
                scores[i],
            ),
    decreases n,
{
    if n > 0 {
        lemma_hits_among(s, scope, scores, n - 1, h);
        lemma_push_contains(
            hits_among(s, scope, scores, n - 1),
            record_hit(s.graph.records()[n - 1], scores[n - 1]),
        );
    }
}

/// A search finds records of the present only, best first, and no more than
/// the limit; without a limit it finds all of those in its scope.
pub proof fn law_search_finds_the_present(
    s: SnapshotView,
    scope: Scope,
    limit: int,
    scores: Seq<Single>,
    h: HitView,
)
    requires
        limit >= 0,
    ensures
        found(s, scope, limit, scores).contains(h) ==> exists|i: int|
            0 <= i < s.graph.records().len() && is_searched(
                s,
                #[trigger] s.graph.records()[i],
                scope,
            ) && h == record_hit(s.graph.records()[i], scores[i]),
        limit == 0 ==> (found(s, scope, limit, scores).contains(h) <==> exists|i: int|
            0 <= i < s.graph.records().len() && is_searched(
                s,
                #[trigger] s.graph.records()[i],
                scope,
            ) && h == record_hit(s.graph.records()[i], scores[i])),
        limit > 0 ==> found(s, scope, limit, scores).len() <= limit,
        in_order::<Hit>(found(s, scope, limit, scores)),
{
    let n = s.graph.records().len() as int;
    let all = hits_among(s, scope, scores, n);
    let r = found(s, scope, limit, scores);
    lemma_hits_among(s, scope, scores, n, h);
    lemma_sorted_contains::<Hit>(all, h);
    law_sorted_in_order::<Hit>(all);
    if r.contains(h) {
        let i = choose|i: int| 0 <= i < r.len() && r[i] == h;
        assert(sorted::<Hit>(all)[i] == h);
    }
    assert forall|i: int, j: int| 0 <= i <= j < r.len() implies #[trigger] Hit::le(
        r[i],
        #[trigger] r[j],
    ) by {
        assert(Hit::le(sorted::<Hit>(all)[i], sorted::<Hit>(all)[j]));
    }
}

/// A search with a smaller limit gives the first hits of one with a larger
/// limit, or with none.
pub proof fn law_smaller_limits_give_prefixes(
    s: SnapshotView,
    scope: Scope,
    small: int,
    large: int,
    scores: Seq<Single>,
)
    requires
        0 < small,
        small <= large || large == 0,
    ensures
        found(s, scope, small, scores).is_prefix_of(found(s, scope, large, scores)),
{
    let a = found(s, scope, small, scores);
    let b = found(s, scope, large, scores);
    assert(a =~= b.subrange(0, a.len() as int));
}

/// The near matches depend on the scores of those forces alone that have
/// vectors.
pub proof fn lemma_near_same(
    s: SnapshotView,
    warn: Double,
    scores: Seq<Single>,
    others: Seq<Single>,
    n: int,
)
    requires
        0 <= n <= s.graph.forces.len(),
        forall|i: int|
            0 <= i < s.graph.forces.len() && has_vector(s, (#[trigger] s.graph.forces[i]).id)
                ==> scores[i] == others[i],
    ensures
        near_among(s, warn, scores, n) == near_among(s, warn, others, n),
    decreases n,
{
    if n > 0 {
        lemma_near_same(s, warn, scores, others, n - 1);
        if has_vector(s, s.graph.forces[n - 1].id) {
            assert(scores[n - 1] == others[n - 1]);
        }
    }
}

proof fn lemma_near_among(s: SnapshotView, warn: Double, scores: Seq<Single>, n: int, h: HitView)
    requires
        0 <= n <= s.graph.forces.len(),
    ensures
        near_among(s, warn, scores, n).contains(h) <==> exists|i: int|
            0 <= i < n && has_vector(s, (#[trigger] s.graph.forces[i]).id) && scores[i].at_least(
                warn,
            ) && h == force_hit(s.graph.forces[i], scores[i]),
    decreases n,
{
    if n > 0 {
        lemma_near_among(s, warn, scores, n - 1, h);
        lemma_push_contains(
            near_among(s, warn, scores, n - 1),
            force_hit(s.graph.forces[n - 1], scores[n - 1]),
        );
    }
}

/// The near matches are all forces that reach the threshold, retired and
/// superseded ones included, best first.
pub proof fn law_near_matches_reach_the_threshold(
    s: SnapshotView,
    warn: Double,
    scores: Seq<Single>,
    h: HitView,
)
    ensures
        near(s, warn, scores).contains(h) <==> exists|i: int|
            0 <= i < s.graph.forces.len() && has_vector(s, (#[trigger] s.graph.forces[i]).id)
                && scores[i].at_least(warn) && h == force_hit(s.graph.forces[i], scores[i]),
        in_order::<Hit>(near(s, warn, scores)),
{
    let n = s.graph.forces.len() as int;
    lemma_near_among(s, warn, scores, n, h);
    lemma_sorted_contains::<Hit>(near_among(s, warn, scores, n), h);
    law_sorted_in_order::<Hit>(near_among(s, warn, scores, n));
}

/// Whether one of the hits is on the record with the given id.
pub open spec fn hits_on(hits: Seq<HitView>, id: Seq<char>) -> bool {
    exists|m: int| 0 <= m < hits.len() && (#[trigger] hits[m]).id == id
}

proof fn lemma_places(g: GraphView, i: int, j: int)
    requires
        distinct_ids(g),
        0 <= i < g.records().len(),
        0 <= j < g.records().len(),
        g.records()[i].id() == g.records()[j].id(),
    ensures
        i == j,
{
}

/// A search finds the record at a place exactly where it is searched, and finds
/// it with its score.
proof fn lemma_found_at(s: SnapshotView, scope: Scope, scores: Seq<Single>, i: int)
    requires
        distinct_ids(s.graph),
        0 <= i < s.graph.records().len(),
    ensures
        ({
            let r = s.graph.records()[i];
            let hits = found(s, scope, 0, scores);
            &&& hits_on(hits, r.id()) <==> is_searched(s, r, scope)
            &&& forall|m: int|
                0 <= m < hits.len() && (#[trigger] hits[m]).id == r.id() ==> hits[m] == record_hit(
                    r,
                    scores[i],
                )
        }),
{
    let r = s.graph.records()[i];
    let hits = found(s, scope, 0, scores);
    assert forall|m: int| 0 <= m < hits.len() && (#[trigger] hits[m]).id == r.id() implies hits[m]
        == record_hit(r, scores[i]) && is_searched(s, r, scope) by {
        law_search_finds_the_present(s, scope, 0, scores, hits[m]);
        assert(hits.contains(hits[m]));
        let j = choose|j: int|
            0 <= j < s.graph.records().len() && is_searched(
                s,
                #[trigger] s.graph.records()[j],
                scope,
            ) && hits[m] == record_hit(s.graph.records()[j], scores[j]);
        lemma_places(s.graph, i, j);
    }
    if is_searched(s, r, scope) {
        let h = record_hit(r, scores[i]);
        law_search_finds_the_present(s, scope, 0, scores, h);
        assert(hits.contains(h));
        let m = choose|m: int| 0 <= m < hits.len() && hits[m] == h;
        assert(hits[m].id == r.id());
    }
}

/// A search without a limit finds a force exactly where forces are in its
/// scope, the force has a vector that is not empty, its last status is holds or
/// changed, and nothing supersedes it. The hit tells the force's title, its
/// last status and its score.
pub proof fn law_search_finds_forces_that_are_not_retired(
    s: SnapshotView,
    scope: Scope,
    scores: Seq<Single>,
    k: int,
)
    requires
        distinct_ids(s.graph),
        0 <= k < s.graph.forces.len(),
    ensures
        ({
            let f = s.graph.forces[k];
            let last = f.status_log.last().status;
            let hits = found(s, scope, 0, scores);
            &&& (exists|m: int| 0 <= m < hits.len() && (#[trigger] hits[m]).id == f.id) <==> (scope
                == Scope::Force || scope == Scope::Both) && s.vectors.contains_key(f.id)
                && s.vectors[f.id].len() > 0 && (last == ForceStatus::Holds || last
                == ForceStatus::Changed) && f.superseded_by is None
            &&& forall|m: int|
                0 <= m < hits.len() && (#[trigger] hits[m]).id == f.id ==> {
                    &&& hits[m].title == f.title
                    &&& hits[m].score == scores[s.graph.decisions.len() + k]
                    &&& hits[m].kind == "force"@
                    &&& hits[m].status == (if last == ForceStatus::Holds {
                        "holds"@
                    } else {
                        "changed"@
                    })
                    &&& hits[m].superseded_by is None
                }
        }),
{
    let i = s.graph.decisions.len() + k;
    let f = s.graph.forces[k];
    assert(s.graph.records()[i] == RecordView::Force(f));
    lemma_found_at(s, scope, scores, i);
    let hits = found(s, scope, 0, scores);
    assert(hits_on(hits, f.id) <==> is_searched(s, RecordView::Force(f), scope));
    assert forall|m: int| 0 <= m < hits.len() && (#[trigger] hits[m]).id == f.id implies hits_on(
        hits,
        f.id,
    ) by {}
}

/// A search without a limit finds a decision exactly where decisions are in its
/// scope, the decision has a vector that is not empty, and it is on the
/// frontier. The hit tells the decision's title, its status and its score.
pub proof fn law_search_finds_decisions_of_the_frontier(
    s: SnapshotView,
    scope: Scope,
    scores: Seq<Single>,
    i: int,
)
    requires
        distinct_ids(s.graph),
        0 <= i < s.graph.decisions.len(),
    ensures
        ({
            let d = s.graph.decisions[i];
            let hits = found(s, scope, 0, scores);
            &&& (exists|m: int| 0 <= m < hits.len() && (#[trigger] hits[m]).id == d.id) <==> (scope
                == Scope::Decision || scope == Scope::Both) && s.vectors.contains_key(d.id)
                && s.vectors[d.id].len() > 0 && s.verdicts.frontier.contains(d.id)
            &&& forall|m: int|
                0 <= m < hits.len() && (#[trigger] hits[m]).id == d.id ==> {
                    &&& hits[m].title == d.title
                    &&& hits[m].score == scores[i]
                    &&& hits[m].kind == "decision"@
                    &&& hits[m].status == match d.status {
                        DecisionStatus::Proposed => "proposed"@,
                        DecisionStatus::Accepted => "accepted"@,
                        DecisionStatus::Rejected => "rejected"@,
                        DecisionStatus::Deprecated => "deprecated"@,
                    }
                    &&& hits[m].superseded_by is None
                }
        }),
{
    let d = s.graph.decisions[i];
    assert(s.graph.records()[i] == RecordView::Decision(d));
    lemma_found_at(s, scope, scores, i);
    let hits = found(s, scope, 0, scores);
    assert(hits_on(hits, d.id) <==> is_searched(s, RecordView::Decision(d), scope));
    assert forall|m: int| 0 <= m < hits.len() && (#[trigger] hits[m]).id == d.id implies hits_on(
        hits,
        d.id,
    ) by {}
}

proof fn lemma_hits_apart(s: SnapshotView, scope: Scope, scores: Seq<Single>, n: int)
    requires
        distinct_ids(s.graph),
        0 <= n <= s.graph.records().len(),
    ensures
        hits_among(s, scope, scores, n).no_duplicates(),
    decreases n,
{
    if n > 0 {
        lemma_hits_apart(s, scope, scores, n - 1);
        let r = s.graph.records()[n - 1];
        let h = record_hit(r, scores[n - 1]);
        let before = hits_among(s, scope, scores, n - 1);
        if before.contains(h) {
            lemma_hits_among(s, scope, scores, n - 1, h);
            let j = choose|j: int|
                0 <= j < n - 1 && is_searched(s, #[trigger] s.graph.records()[j], scope) && h
                    == record_hit(s.graph.records()[j], scores[j]);
            lemma_places(s.graph, j, n - 1);
        }
    }
}

/// Hits are records of the graph, each once: the highest score first, and those
/// with the same score in the order of their ids.
pub proof fn law_hits_come_best_first(
    s: SnapshotView,
    scope: Scope,
    limit: int,
    scores: Seq<Single>,
)
    requires
        distinct_ids(s.graph),
        limit >= 0,
    ensures
        ({
            let hits = found(s, scope, limit, scores);
            &&& forall|m: int|
                0 <= m < hits.len() ==> exists|i: int|
                    0 <= i < s.graph.records().len() && (#[trigger] s.graph.records()[i]).id() == (
                    #[trigger] hits[m]).id
            &&& forall|m: int, n: int|
                0 <= m < n < hits.len() ==> {
                    let a = #[trigger] hits[m];
                    let b = #[trigger] hits[n];
                    &&& a.id != b.id
                    &&& a.score.key() > b.score.key() || a.score.key() == b.score.key() && text_le(
                        a.id,
                        b.id,
                    )
                }
        }),
{
    let n = s.graph.records().len() as int;
    let among = hits_among(s, scope, scores, n);
    let hits = found(s, scope, limit, scores);
    let all = sorted::<Hit>(among);
    law_sorted_in_order::<Hit>(among);
    law_sorted_rearranges::<Hit>(among);
    lemma_hits_apart(s, scope, scores, n);
    among.lemma_multiset_has_no_duplicates();
    all.lemma_multiset_has_no_duplicates_conv();
    assert forall|m: int| 0 <= m < hits.len() implies exists|i: int|
        0 <= i < n && (#[trigger] s.graph.records()[i]).id() == (#[trigger] hits[m]).id
            && hits[m] == record_hit(s.graph.records()[i], scores[i]) by {
        law_search_finds_the_present(s, scope, limit, scores, hits[m]);
        assert(hits.contains(hits[m]));
        let i = choose|i: int|
            0 <= i < n && is_searched(s, #[trigger] s.graph.records()[i], scope) && hits[m]
                == record_hit(s.graph.records()[i], scores[i]);
        assert(s.graph.records()[i].id() == hits[m].id);
    }
    assert forall|m: int, k: int| 0 <= m < k < hits.len() implies {
        let a = #[trigger] hits[m];
        let b = #[trigger] hits[k];
        &&& a.id != b.id
        &&& a.score.key() > b.score.key() || a.score.key() == b.score.key() && text_le(a.id, b.id)
    } by {
        assert(hits[m] == all[m] && hits[k] == all[k]);
        assert(<Hit as Ordered>::le(all[m], all[k]));
        let i = choose|i: int|
            0 <= i < n && (#[trigger] s.graph.records()[i]).id() == hits[m].id && hits[m]
                == record_hit(s.graph.records()[i], scores[i]);
        let j = choose|j: int|
            0 <= j < n && (#[trigger] s.graph.records()[j]).id() == hits[k].id && hits[k]
                == record_hit(s.graph.records()[j], scores[j]);
        if hits[m].id == hits[k].id {
            lemma_places(s.graph, i, j);
        }
    }
}

/// A limit cuts the hits to that number, and to no fewer; a limit of zero cuts
/// nothing.
pub proof fn law_limits_cut_exactly(s: SnapshotView, scope: Scope, limit: int, scores: Seq<Single>)
    requires
        limit > 0,
    ensures
        ({
            let all = found(s, scope, 0, scores);
            let hits = found(s, scope, limit, scores);
            &&& hits.len() == (if limit < all.len() {
                limit as nat
            } else {
                all.len()
            })
            &&& forall|m: int| 0 <= m < hits.len() ==> #[trigger] hits[m] == all[m]
        }),
{
}

/// The near matches tell of a force exactly where it has a vector that is not
/// empty and its score reaches the threshold, whatever its status, and whether
/// it is superseded or not. The best come first.
pub proof fn law_near_matches_leave_no_force_out(
    s: SnapshotView,
    warn: Double,
    scores: Seq<Single>,
    k: int,
)
    requires
        distinct_ids(s.graph),
        0 <= k < s.graph.forces.len(),
    ensures
        ({
            let f = s.graph.forces[k];
            let hits = near(s, warn, scores);
            &&& (exists|m: int| 0 <= m < hits.len() && (#[trigger] hits[m]).id == f.id)
                <==> s.vectors.contains_key(f.id) && s.vectors[f.id].len() > 0
                && scores[k].at_least(warn)
            &&& forall|m: int|
                0 <= m < hits.len() && (#[trigger] hits[m]).id == f.id ==> {
                    &&& hits[m].title == f.title
                    &&& hits[m].score == scores[k]
                    &&& hits[m].kind == "force"@
                    &&& hits[m].status == match f.status_log.last().status {
                        ForceStatus::Holds => "holds"@,
                        ForceStatus::Changed => "changed"@,
                        ForceStatus::Retired => "retired"@,
                    }
                    &&& hits[m].superseded_by == f.superseded_by
                }
            &&& forall|m: int|
                0 <= m < hits.len() ==> exists|j: int|
                    0 <= j < s.graph.forces.len() && (#[trigger] s.graph.forces[j]).id == (
                    #[trigger] hits[m]).id
            &&& forall|m: int, n: int|
                0 <= m < n < hits.len() ==> {
                    let a = #[trigger] hits[m];
                    let b = #[trigger] hits[n];
                    a.score.key() > b.score.key() || a.score.key() == b.score.key() && text_le(
                        a.id,
                        b.id,
                    )
                }
        }),
{
    let g = s.graph;
    let f = g.forces[k];
    let hits = near(s, warn, scores);
    law_near_matches_reach_the_threshold(s, warn, scores, force_hit(f, scores[k]));
    assert forall|m: int| 0 <= m < hits.len() implies exists|j: int|
        0 <= j < g.forces.len() && (#[trigger] g.forces[j]).id == (#[trigger] hits[m]).id
            && has_vector(s, g.forces[j].id) && scores[j].at_least(warn) && hits[m] == force_hit(
            g.forces[j],
            scores[j],
        ) by {
        law_near_matches_reach_the_threshold(s, warn, scores, hits[m]);
        assert(hits.contains(hits[m]));
        let j = choose|j: int|
            0 <= j < g.forces.len() && has_vector(s, (#[trigger] g.forces[j]).id)
                && scores[j].at_least(warn) && hits[m] == force_hit(g.forces[j], scores[j]);
        assert(g.forces[j].id == hits[m].id);
    }
    assert forall|m: int| 0 <= m < hits.len() && (#[trigger] hits[m]).id == f.id implies hits[m]
        == force_hit(f, scores[k]) && has_vector(s, f.id) && scores[k].at_least(warn) by {
        let j = choose|j: int|
            0 <= j < g.forces.len() && (#[trigger] g.forces[j]).id == hits[m].id && has_vector(
                s,
                g.forces[j].id,
            ) && scores[j].at_least(warn) && hits[m] == force_hit(g.forces[j], scores[j]);
        let n = g.decisions.len() as int;
        assert(g.records()[n + j] == RecordView::Force(g.forces[j]));
        assert(g.records()[n + k] == RecordView::Force(f));
        lemma_places(g, n + j, n + k);
    }
    if has_vector(s, f.id) && scores[k].at_least(warn) {
        assert(hits.contains(force_hit(f, scores[k])));
        let m = choose|m: int| 0 <= m < hits.len() && hits[m] == force_hit(f, scores[k]);
        assert(hits[m].id == f.id);
    }
    assert forall|m: int, n: int| 0 <= m < n < hits.len() implies {
        let a = #[trigger] hits[m];
        let b = #[trigger] hits[n];
        a.score.key() > b.score.key() || a.score.key() == b.score.key() && text_le(a.id, b.id)
    } by {
        assert(<Hit as Ordered>::le(hits[m], hits[n]));
    }
}

/// The score of a hit is what the similarity makes of the query and of the
/// vector of the record that was hit.
pub proof fn law_hits_have_their_own_scores<F: Fn(&Vector, &Vector) -> Single>(
    similarity: F,
    snap: &Snapshot,
    query: Vector,
    scope: Scope,
    limit: int,
    scores: Seq<Single>,
    m: int,
)
    requires
        distinct_ids(snap@.graph),
        scores_of(similarity, snap, query, scope, scores),
        0 <= m < found(snap@, scope, limit, scores).len(),
        limit >= 0,
    ensures
        ({
            let h = found(snap@, scope, limit, scores)[m];
            snap.vectors@.contains_key(h.id) && call_ensures(
                similarity,
                (&query, &snap.vectors@[h.id]),
                h.score,
            )
        }),
{
    let s = snap@;
    let hits = found(s, scope, limit, scores);
    law_search_finds_the_present(s, scope, limit, scores, hits[m]);
    assert(hits.contains(hits[m]));
    let i = choose|i: int|
        0 <= i < s.graph.records().len() && is_searched(s, #[trigger] s.graph.records()[i], scope)
            && hits[m] == record_hit(s.graph.records()[i], scores[i]);
    assert(s.vectors.contains_key(hits[m].id));
}

/// The score of a near match is what the similarity makes of the query and of
/// the vector of the force that was matched.
pub proof fn law_near_matches_have_their_own_scores<F: Fn(&Vector, &Vector) -> Single>(
    similarity: F,
    snap: &Snapshot,
    query: Vector,
    warn: Double,
    scores: Seq<Single>,
    m: int,
)
    requires
        distinct_ids(snap@.graph),
        force_scores_of(similarity, snap, query, scores),
        0 <= m < near(snap@, warn, scores).len(),
    ensures
        ({
            let h = near(snap@, warn, scores)[m];
            snap.vectors@.contains_key(h.id) && h.score.at_least(warn) && call_ensures(
                similarity,
                (&query, &snap.vectors@[h.id]),
                h.score,
            )
        }),
{
    let s = snap@;
    let hits = near(s, warn, scores);
    if s.graph.forces.len() > 0 {
        law_near_matches_leave_no_force_out(s, warn, scores, 0);
        let k = choose|k: int|
            0 <= k < s.graph.forces.len() && (#[trigger] s.graph.forces[k]).id == hits[m].id;
        law_near_matches_leave_no_force_out(s, warn, scores, k);
        assert(has_vector(s, s.graph.forces[k].id));
    } else {
        lemma_no_forces(s, warn, scores);
    }
}

proof fn lemma_no_forces(s: SnapshotView, warn: Double, scores: Seq<Single>)
    requires
        s.graph.forces.len() == 0,
    ensures
        near(s, warn, scores).len() == 0,
{
    let all = near_among(s, warn, scores, 0);
    assert(all =~= Seq::empty());
}

/// Whether hits are on different records.
spec fn are_apart(hits: Seq<HitView>) -> bool {
    forall|a: int, b: int|
        0 <= a < b < hits.len() ==> (#[trigger] hits[a]).id != (#[trigger] hits[b]).id
}

proof fn lemma_sorted_apart(hits: Seq<HitView>)
    requires
        are_apart(hits),
    ensures
        are_apart(sorted::<Hit>(hits)),
{
    let all = sorted::<Hit>(hits);
    assert(hits.no_duplicates()) by {
        assert forall|a: int, b: int|
            0 <= a < hits.len() && 0 <= b < hits.len() && a != b implies hits[a] != hits[b] by {
            if a < b {
                assert(hits[a].id != hits[b].id);
            } else {
                assert(hits[b].id != hits[a].id);
            }
        }
    }
    law_sorted_rearranges::<Hit>(hits);
    hits.lemma_multiset_has_no_duplicates();
    all.lemma_multiset_has_no_duplicates_conv();
    assert forall|m: int, n: int| 0 <= m < n < all.len() implies (#[trigger] all[m]).id != (
    #[trigger] all[n]).id by {
        lemma_sorted_contains::<Hit>(hits, all[m]);
        lemma_sorted_contains::<Hit>(hits, all[n]);
        assert(all.contains(all[m]) && all.contains(all[n]));
        let a = choose|a: int| 0 <= a < hits.len() && hits[a] == all[m];
        let b = choose|b: int| 0 <= b < hits.len() && hits[b] == all[n];
        if a == b {
            assert(all[m] == all[n]);
        } else if a < b {
            assert(hits[a].id != hits[b].id);
        } else {
            assert(hits[b].id != hits[a].id);
        }
    }
}

proof fn lemma_near_apart(s: SnapshotView, warn: Double, scores: Seq<Single>, n: int)
    requires
        distinct_ids(s.graph),
        0 <= n <= s.graph.forces.len(),
    ensures
        are_apart(near_among(s, warn, scores, n)),
        forall|a: int|
            0 <= a < near_among(s, warn, scores, n).len() ==> exists|i: int|
                0 <= i < n && (#[trigger] s.graph.forces[i]).id == (
                #[trigger] near_among(s, warn, scores, n)[a]).id,
    decreases n,
{
    if n > 0 {
        lemma_near_apart(s, warn, scores, n - 1);
        let a = near_among(s, warn, scores, n - 1);
        let b = near_among(s, warn, scores, n);
        let fs = s.graph.forces;
        let m = s.graph.decisions.len() as int;
        assert forall|x: int| 0 <= x < b.len() implies exists|i: int|
            0 <= i < n && (#[trigger] fs[i]).id == (#[trigger] b[x]).id by {
            if x < a.len() {
                assert(b[x] == a[x]);
                let i = choose|i: int| 0 <= i < n - 1 && (#[trigger] fs[i]).id == a[x].id;
                assert(fs[i].id == b[x].id);
            } else {
                assert(fs[n - 1].id == b[x].id);
            }
        }
        assert forall|x: int, y: int| 0 <= x < y < b.len() implies (#[trigger] b[x]).id != (
        #[trigger] b[y]).id by {
            if y < a.len() {
                assert(b[x] == a[x] && b[y] == a[y]);
            } else {
                assert(b[x] == a[x]);
                let i = choose|i: int| 0 <= i < n - 1 && (#[trigger] fs[i]).id == a[x].id;
                assert(s.graph.records()[m + i].id() != s.graph.records()[m + n - 1].id());
            }
        }
    }
}

/// The near matches of something tell of a force once.
pub proof fn law_near_matches_are_told_once(
    s: SnapshotView,
    warn: Double,
    scores: Seq<Single>,
    a: int,
    b: int,
)
    requires
        distinct_ids(s.graph),
        0 <= a < b < near(s, warn, scores).len(),
    ensures
        near(s, warn, scores)[a].id != near(s, warn, scores)[b].id,
{
    let m = s.graph.forces.len() as int;
    lemma_near_apart(s, warn, scores, m);
    lemma_sorted_apart(near_among(s, warn, scores, m));
}

} // verus!
