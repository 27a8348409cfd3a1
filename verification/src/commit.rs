//! Committing proposals and setting statuses: what is written, and what is
//! answered.
use vstd::prelude::*;
use crate::embed::cache::VectorCache;
use crate::embed::Embedder;
use crate::graph::{distinct_ids, law_lookup, Graph, GraphView, Record, RecordView};
use crate::guardian::{
    failure, find_nears, force_problems, is_unknown, lemma_new_titles, lemma_news, make_force,
    new_force, new_titles, nears_result, news_before, today_iso, Engine, ForceInput, ForceInputView, Near, NearView, ProposeInput,
    ProposeInputView, Proposed,
};
use crate::ids::{base_id, free_id, generate_id, is_taken, law_new_ids_are_free, slug};
use crate::judge::{
    law_a_fall_reaches_all_that_rests_on_it, rests_on, verdict_on, PremiseVerdict,
};
use crate::linker::Diagnostic;
use crate::paths::{join, joined};
use crate::recall::{Hit, HitView};
use crate::record::{
    check_status_log, follows, is_legal, iso_day, law_log_accepted, log_days, log_problem, passes,
    read_date, valid_log, Decision, DecisionStatus, DecisionView, Force, ForceStatus, ForceView,
    RawRecord, StatusEntry, StatusEntryView,
};
use crate::score::{Double, Single, Vector};
use crate::serialize::{
    decision_lines, file_text, force_lines, serialize_decision, serialize_force,
};
use crate::snapshot::{
    builds, law_built_is_sound, BuildError, Snapshot, SnapshotView, SourceFile,
};
use crate::text::{
    copy_texts, join2, join_texts, joined_texts, lemma_push_contains, same_text, views,
};

verus! {

/// A file that is to be written.
#[derive(Debug)]
pub struct NewFile {
    pub path: String,
    pub text: String,
}

/// What a [`NewFile`] stands for.
#[verifier::ext_equal]
pub struct NewFileView {
    pub path: Seq<char>,
    pub text: Seq<char>,
}

impl View for NewFile {
    type V = NewFileView;

    open spec fn view(&self) -> NewFileView {
        NewFileView { path: self.path@, text: self.text@ }
    }
}

/// What a commit did.
#[derive(Debug)]
pub struct Receipt {
    pub decision_id: String,
    /// The forces that were made.
    pub created_force_ids: Vec<String>,
    /// The forces that were taken in place of new ones.
    pub reused: Vec<String>,
    /// The forces that are nearly the same as one that was made.
    pub warnings: Vec<Near>,
}

/// What a [`Receipt`] stands for.
#[verifier::ext_equal]
pub struct ReceiptView {
    pub decision_id: Seq<char>,
    pub created_force_ids: Seq<Seq<char>>,
    pub reused: Seq<Seq<char>>,
    pub warnings: Seq<NearView>,
}

impl View for Receipt {
    type V = ReceiptView;

    open spec fn view(&self) -> ReceiptView {
        ReceiptView {
            decision_id: self.decision_id@,
            created_force_ids: views(self.created_force_ids@),
            reused: views(self.reused@),
            warnings: views(self.warnings@),
        }
    }
}

/// The files that a commit writes, and its receipt.
#[derive(Debug)]
pub struct Commit {
    pub files: Vec<NewFile>,
    pub receipt: Receipt,
}

/// What a [`Commit`] stands for.
#[verifier::ext_equal]
pub struct CommitView {
    pub files: Seq<NewFileView>,
    pub receipt: ReceiptView,
}

impl View for Commit {
    type V = CommitView;

    open spec fn view(&self) -> CommitView {
        CommitView { files: views(self.files@), receipt: self.receipt@ }
    }
}

/// How far the forces of a proposal are settled.
#[verifier::ext_equal]
pub struct SettledView {
    pub cites: Seq<Seq<char>>,
    pub made: Seq<ForceView>,
    pub created: Seq<Seq<char>>,
    pub reused: Seq<Seq<char>>,
    pub warnings: Seq<NearView>,
}

/// Whether an existing force is taken in place of a new one: the best match
/// reaches the threshold, and the new force is not said to be new.
pub open spec fn is_reused(force_new: bool, hits: Seq<HitView>, reuse: Double) -> bool {
    !force_new && hits.len() > 0 && hits[0].score.at_least(reuse)
}

/// What the first `n` forces come to, given the near matches of each new one.
pub open spec fn settled(
    g: GraphView,
    forces: Seq<ForceInputView>,
    hits: Seq<Seq<HitView>>,
    reuse: Double,
    today: Seq<char>,
    n: int,
) -> SettledView
    decreases n,
{
    if n <= 0 {
        SettledView {
            cites: Seq::empty(),
            made: Seq::empty(),
            created: Seq::empty(),
            reused: Seq::empty(),
            warnings: Seq::empty(),
        }
    } else {
        let s = settled(g, forces, hits, reuse, today, n - 1);
        match forces[n - 1] {
            ForceInputView::Existing { id } => SettledView { cites: s.cites.push(id), ..s },
            ForceInputView::New { title, body, force_new } => {
                let own = hits[new_titles(forces, n - 1).len() as int];
                if is_reused(force_new, own, reuse) {
                    SettledView {
                        cites: s.cites.push(own[0].id),
                        reused: s.reused.push(own[0].id),
                        ..s
                    }
                } else {
                    let id = free_id(g, s.created, base_id("f"@, title));
                    SettledView {
                        cites: s.cites.push(id),
                        made: s.made.push(new_force(id, title, body, today)),
                        created: s.created.push(id),
                        warnings: if own.len() > 0 {
                            s.warnings.push(NearView { force_id: id, hits: own })
                        } else {
                            s.warnings
                        },
                        ..s
                    }
                }
            },
        }
    }
}

/// The decision that is committed.
pub open spec fn committed_decision(
    g: GraphView,
    input: ProposeInputView,
    s: SettledView,
    date: Seq<char>,
) -> DecisionView {
    DecisionView {
        id: free_id(g, s.created, base_id("d"@, input.title)),
        title: input.title,
        status: DecisionStatus::Accepted,
        date,
        cites: s.cites,
        supersedes: input.supersedes,
        relates: input.relates,
        anchors: Seq::empty(),
        tags: input.tags,
        body: input.body,
        path: Seq::empty(),
    }
}

/// The file of a record in a directory.
pub open spec fn record_path(dir: Seq<char>, id: Seq<char>) -> Seq<char> {
    joined(dir, id + ".md"@)
}

/// The file of a new force.
pub open spec fn force_file(dir: Seq<char>, f: ForceView) -> NewFileView {
    NewFileView { path: record_path(dir, f.id), text: file_text(force_lines(f), f.body) }
}

/// What committing a proposal comes to, on a given day and with a given date
/// for the decision. It fails where the proposal names forces that do not
/// exist, or where the date is none.
pub open spec fn commit_of(
    g: GraphView,
    dir: Seq<char>,
    reuse: Double,
    input: ProposeInputView,
    hits: Seq<Seq<HitView>>,
    date: Seq<char>,
    today: Seq<char>,
) -> Result<CommitView, Seq<char>> {
    let n = input.forces.len() as int;
    let problems = force_problems(g, input.forces, n);
    if problems.len() > 0 {
        Err(joined_texts(problems, "; "@))
    } else if iso_day(date) is None {
        Err("invalid date format: "@ + date)
    } else {
        let s = settled(g, input.forces, hits, reuse, today, n);
        let d = committed_decision(g, input, s, date);
        Ok(
            CommitView {
                files: s.made.map_values(|f: ForceView| force_file(dir, f)).push(
                    NewFileView {
                        path: record_path(dir, d.id),
                        text: file_text(decision_lines(d, ""@), d.body),
                    },
                ),
                receipt: ReceiptView {
                    decision_id: d.id,
                    created_force_ids: s.created,
                    reused: s.reused,
                    warnings: s.warnings,
                },
            },
        )
    }
}

/// The view of the outcome of a commit.
pub open spec fn commit_view(r: Result<Commit, String>) -> Result<CommitView, Seq<char>> {
    match r {
        Ok(c) => Ok(c@),
        Err(m) => Err(m@),
    }
}

/// How far the forces of a proposal are settled.
struct Settled {
    cites: Vec<String>,
    made: Vec<Force>,
    created: Vec<String>,
    reused: Vec<String>,
    warnings: Vec<Near>,
}

impl View for Settled {
    type V = SettledView;

    closed spec fn view(&self) -> SettledView {
        SettledView {
            cites: views(self.cites@),
            made: views(self.made@),
            created: views(self.created@),
            reused: views(self.reused@),
            warnings: views(self.warnings@),
        }
    }
}

fn copy_hits(hits: &Vec<Hit>) -> (r: Vec<Hit>)
    ensures
        views(r@) == views(hits@),
{
    let mut out: Vec<Hit> = Vec::new();
    for i in 0..hits.len()
        invariant
            out.len() == i,
            forall|j: int| 0 <= j < i ==> (#[trigger] out@[j])@ == hits@[j]@,
    {
        out.push(hits[i].clone());
    }
    assert(views(out@) =~= views(hits@));
    out
}

/// The views of lists of hits.
pub open spec fn hit_views(hits: Seq<Vec<Hit>>) -> Seq<Seq<HitView>> {
    hits.map_values(|h: Vec<Hit>| views(h@))
}

/// Settles the forces of a proposal.
fn settle(
    graph: &Graph,
    forces: &Vec<ForceInput>,
    hits: &Vec<Vec<Hit>>,
    reuse: Double,
    today: &str,
) -> (r: Settled)
    requires
        graph@.forces.len() + graph@.decisions.len() <= u32::MAX,
        hits.len() == new_titles(views(forces@), forces.len() as int).len(),
        forces.len() <= u32::MAX,
    ensures
        r@ == settled(
            graph@,
            views(forces@),
            hit_views(hits@),
            reuse,
            today@,
            forces.len() as int,
        ),
        r.created.len() <= forces.len(),
{
    let ghost g = graph@;
    let ghost fs = views(forces@);
    let ghost hs = hit_views(hits@);
    let mut s = Settled {
        cites: Vec::new(),
        made: Vec::new(),
        created: Vec::new(),
        reused: Vec::new(),
        warnings: Vec::new(),
    };
    assert(s@ =~= settled(g, fs, hs, reuse, today@, 0));
    let mut k: usize = 0;
    for i in 0..forces.len()
        invariant
            g == graph@,
            fs == views(forces@),
            hs == hit_views(hits@),
            g.forces.len() + g.decisions.len() <= u32::MAX,
            hits.len() == new_titles(fs, forces.len() as int).len(),
            forces.len() <= u32::MAX,
            k == new_titles(fs, i as int).len(),
            s.created.len() <= i,
            s@ == settled(g, fs, hs, reuse, today@, i as int),
    {
        let ghost before = s@;
        proof {
            assert(fs[i as int] == forces@[i as int]@);
            lemma_new_titles(fs, i + 1);
        }
        match &forces[i] {
            ForceInput::Existing { id } => {
                s.cites.push(id.clone());
                assert(s@ =~= (SettledView { cites: before.cites.push(id@), ..before }));
            },
            ForceInput::New { title, body, force_new } => {
                assert(new_titles(fs, i + 1).len() == k + 1);
                let own = &hits[k];
                assert(hs[k as int] == views(own@));
                assert(views(own@).len() == own@.len());
                if !*force_new && own.len() > 0 && own[0].score.reaches(reuse) {
                    assert(views(own@)[0] == own@[0]@);
                    s.cites.push(own[0].id.clone());
                    s.reused.push(own[0].id.clone());
                    assert(s@ =~= (SettledView {
                        cites: before.cites.push(own@[0]@.id),
                        reused: before.reused.push(own@[0]@.id),
                        ..before
                    }));
                } else {
                    assert(own@.len() > 0 ==> views(own@)[0] == own@[0]@);
                    let id = generate_id(graph, &s.created, "f", title.as_str());
                    s.cites.push(id.clone());
                    s.created.push(id.clone());
                    if own.len() > 0 {
                        s.warnings.push(Near { force_id: id.clone(), hits: copy_hits(own) });
                    }
                    let force = make_force(id, title.as_str(), body.as_str(), today);
                    s.made.push(force);
                    proof {
                        assert(views(s.cites@) =~= before.cites.push(id@));
                        assert(views(s.created@) =~= before.created.push(id@));
                        assert(views(s.made@) =~= before.made.push(force@));
                        assert(views(s.warnings@) =~= (if own@.len() > 0 {
                            before.warnings.push(NearView { force_id: id@, hits: views(own@) })
                        } else {
                            before.warnings
                        }));
                        assert(views(s.reused@) =~= before.reused);
                    }
                }
                k = k + 1;
            },
        }
    }
    s
}

fn find_problems(graph: &Graph, forces: &Vec<ForceInput>) -> (r: Vec<String>)
    ensures
        views(r@) == force_problems(graph@, views(forces@), forces.len() as int),
{
    let ghost g = graph@;
    let ghost fs = views(forces@);
    let mut r: Vec<String> = Vec::new();
    assert(views(r@) =~= force_problems(g, fs, 0));
    for i in 0..forces.len()
        invariant
            g == graph@,
            fs == views(forces@),
            views(r@) == force_problems(g, fs, i as int),
    {
        let ghost before = views(r@);
        assert(fs[i as int] == forces@[i as int]@);
        if let ForceInput::Existing { id } = &forces[i] {
            if graph.get(id.as_str()).is_none() {
                let problem = join2("unknown force id ", id.as_str());
                r.push(problem);
                assert(views(r@) =~= before.push(problem@));
            }
        }
    }
    r
}

fn path_for(dir: &str, id: &str) -> (r: String)
    ensures
        r@ == record_path(dir@, id@),
{
    join(dir, join2(id, ".md").as_str())
}

/// Plans the commit of a proposal: re-validates it, takes existing forces in
/// place of new ones that are the same, and gives the files to be written. The
/// near matches of each new force are given in turn, best first.
pub fn plan_commit(
    graph: &Graph,
    dir: &str,
    reuse: Double,
    input: &ProposeInput,
    hits: &Vec<Vec<Hit>>,
    date: &str,
    today: &str,
) -> (r: Result<Commit, String>)
    requires
        graph@.forces.len() + graph@.decisions.len() <= u32::MAX,
        input.forces.len() <= u32::MAX,
        hits.len() == new_titles(input@.forces, input@.forces.len() as int).len(),
    ensures
        commit_view(r) == commit_of(
            graph@,
            dir@,
            reuse,
            input@,
            hit_views(hits@),
            date@,
            today@,
        ),
{
    let ghost g = graph@;
    assert(input@.forces.len() == input.forces@.len());
    let problems = find_problems(graph, &input.forces);
    assert(views(problems@).len() == problems@.len());
    if problems.len() > 0 {
        return Err(join_texts(&problems, "; "));
    }
    if read_date(date).is_none() {
        return Err(join2("invalid date format: ", date));
    }
    let s = settle(graph, &input.forces, hits, reuse, today);
    let ghost sv = s@;
    let id = generate_id(graph, &s.created, "d", input.title.as_str());
    let decision = Decision {
        id: id.clone(),
        title: input.title.clone(),
        status: DecisionStatus::Accepted,
        date: date.to_string(),
        cites: s.cites,
        supersedes: copy_texts(&input.supersedes),
        relates: copy_texts(&input.relates),
        anchors: Vec::new(),
        tags: copy_texts(&input.tags),
        body: input.body.clone(),
        path: String::new(),
    };
    assert(decision@ =~= committed_decision(g, input@, sv, date@));
    let ghost fs = sv.made.map_values(|f: ForceView| force_file(dir@, f));
    let mut files: Vec<NewFile> = Vec::new();
    assert(views(files@) =~= fs.take(0));
    for i in 0..s.made.len()
        invariant
            sv.made == views(s.made@),
            fs == sv.made.map_values(|f: ForceView| force_file(dir@, f)),
            views(files@) == fs.take(i as int),
    {
        let ghost before = views(files@);
        let f = &s.made[i];
        assert(sv.made[i as int] == f@);
        let file = NewFile { path: path_for(dir, f.id.as_str()), text: serialize_force(f) };
        files.push(file);
        assert(views(files@) =~= before.push(file@));
        assert(fs.take(i + 1) =~= before.push(file@));
    }
    assert(fs.take(fs.len() as int) =~= fs);
    let last = NewFile {
        path: path_for(dir, id.as_str()),
        text: serialize_decision(&decision, ""),
    };
    files.push(last);
    assert(views(files@) =~= fs.push(last@));
    Ok(
        Commit {
            files,
            receipt: Receipt {
                decision_id: id,
                created_force_ids: s.created,
                reused: s.reused,
                warnings: s.warnings,
            },
        },
    )
}

/// The log with one more entry.
pub open spec fn extended(f: ForceView, status: ForceStatus, today: Seq<char>) -> ForceView {
    ForceView { status_log: f.status_log.push(StatusEntryView { status, since: today }), ..f }
}

/// The status that a word names for a force.
pub open spec fn force_status(word: Seq<char>) -> Option<ForceStatus> {
    if word == "holds"@ {
        Some(ForceStatus::Holds)
    } else if word == "changed"@ {
        Some(ForceStatus::Changed)
    } else if word == "retired"@ {
        Some(ForceStatus::Retired)
    } else {
        None
    }
}

/// A decision that is deprecated on a given day.
pub open spec fn deprecated(d: DecisionView, today: Seq<char>) -> DecisionView {
    DecisionView { status: DecisionStatus::Deprecated, date: today, ..d }
}

/// What setting a status comes to on a given day: the file of the record with
/// its new text. A force takes the status on, if its log stays a history; a
/// decision that is accepted can be deprecated.
pub open spec fn status_change(
    g: GraphView,
    id: Seq<char>,
    word: Seq<char>,
    anchors: Seq<char>,
    today: Seq<char>,
) -> Result<NewFileView, Seq<char>> {
    match g.lookup(id) {
        None => Err("unknown id "@ + id),
        Some(RecordView::Force(f)) => match force_status(word) {
            None => Err("unknown force status "@ + word),
            Some(status) => {
                let next = extended(f, status, today);
                match log_problem(next.status_log, log_days(next.status_log)) {
                    Some(problem) => Err(problem),
                    None => Ok(
                        NewFileView {
                            path: f.path,
                            text: file_text(force_lines(next), next.body),
                        },
                    ),
                }
            },
        },
        Some(RecordView::Decision(d)) => if word != "deprecated"@ {
            Err("unknown decision status "@ + word)
        } else if d.status != DecisionStatus::Accepted {
            Err("only an accepted decision can be deprecated: "@ + id)
        } else {
            let next = deprecated(d, today);
            Ok(NewFileView { path: d.path, text: file_text(decision_lines(next, anchors), next.body) })
        },
    }
}

/// The view of the outcome of setting a status.
pub open spec fn change_view(r: Result<NewFile, String>) -> Result<NewFileView, Seq<char>> {
    match r {
        Ok(f) => Ok(f@),
        Err(m) => Err(m@),
    }
}

fn read_force_status(word: &str) -> (r: Option<ForceStatus>)
    ensures
        r == force_status(word@),
{
    if same_text(word, "holds") {
        Some(ForceStatus::Holds)
    } else if same_text(word, "changed") {
        Some(ForceStatus::Changed)
    } else if same_text(word, "retired") {
        Some(ForceStatus::Retired)
    } else {
        None
    }
}

fn extend_log(f: &Force, status: ForceStatus, today: &str) -> (r: Force)
    ensures
        r@ == extended(f@, status, today@),
{
    let mut next = f.clone();
    let ghost log = views(next.status_log@);
    next.status_log.push(StatusEntry { status, since: today.to_string() });
    assert(views(next.status_log@) =~= log.push(StatusEntryView { status, since: today@ }));
    next
}

fn read_days(log: &Vec<StatusEntry>) -> (r: Vec<Option<i32>>)
    ensures
        r@ == log_days(views(log@)),
{
    let mut days: Vec<Option<i32>> = Vec::new();
    for i in 0..log.len()
        invariant
            days.len() == i,
            forall|j: int| 0 <= j < i ==> days@[j] == iso_day(log@[j].since@),
    {
        days.push(read_date(log[i].since.as_str()));
    }
    assert(days@ =~= log_days(views(log@)));
    days
}

/// Plans to set the status of a record on a given day. `anchors` is the
/// anchors of the record, if it is a decision, as a YAML flow sequence.
pub fn plan_status(graph: &Graph, id: &str, word: &str, anchors: &str, today: &str) -> (r: Result<
    NewFile,
    String,
>)
    ensures
        change_view(r) == status_change(graph@, id@, word@, anchors@, today@),
{
    match graph.get(id) {
        None => Err(join2("unknown id ", id)),
        Some(Record::Force(f)) => {
            let status = match read_force_status(word) {
                Some(s) => s,
                None => {
                    return Err(join2("unknown force status ", word));
                },
            };
            let next = extend_log(f, status, today);
            let days = read_days(&next.status_log);
            assert(days@.len() == views(next.status_log@).len());
            match check_status_log(&next.status_log, &days) {
                Some(problem) => Err(problem),
                None => Ok(NewFile { path: next.path.clone(), text: serialize_force(&next) }),
            }
        },
        Some(Record::Decision(d)) => {
            if !same_text(word, "deprecated") {
                return Err(join2("unknown decision status ", word));
            }
            if d.status != DecisionStatus::Accepted {
                return Err(join2("only an accepted decision can be deprecated: ", id));
            }
            let mut next = d.clone();
            next.status = DecisionStatus::Deprecated;
            next.date = today.to_string();
            assert(next@ =~= deprecated(d@, today@));
            Ok(NewFile { path: next.path.clone(), text: serialize_decision(&next, anchors) })
        },
    }
}

/// Whether a decision is stale.
pub open spec fn is_stale(s: SnapshotView, id: Seq<char>) -> bool {
    s.verdicts.premise.contains_key(id) && s.verdicts.premise[id] is Stale
}

/// The decisions, among the first `n`, that became stale from one snapshot to
/// another.
pub open spec fn became_stale(before: SnapshotView, after: SnapshotView, n: int) -> Seq<Seq<char>>
    decreases n,
{
    if n <= 0 {
        Seq::empty()
    } else {
        let rest = became_stale(before, after, n - 1);
        let id = after.graph.decisions[n - 1].id;
        if is_stale(after, id) && !is_stale(before, id) {
            rest.push(id)
        } else {
            rest
        }
    }
}

fn stale(snap: &Snapshot, id: &str) -> (r: bool)
    ensures
        r == is_stale(snap@, id@),
{
    match snap.verdicts.premise.get(id) {
        Some(PremiseVerdict::Stale { fallen: _ }) => {
            assert(snap@.verdicts.premise[id@] == snap.verdicts.premise@[id@]@);
            true
        },
        Some(PremiseVerdict::Fresh) => {
            assert(snap@.verdicts.premise[id@] == snap.verdicts.premise@[id@]@);
            false
        },
        None => false,
    }
}

/// The decisions that became stale from one snapshot to another.
pub fn newly_stale(before: &Snapshot, after: &Snapshot) -> (r: Vec<String>)
    ensures
        views(r@) == became_stale(before@, after@, after@.graph.decisions.len() as int),
{
    let decisions = after.graph.decisions();
    let mut r: Vec<String> = Vec::new();
    assert(views(r@) =~= became_stale(before@, after@, 0));
    for i in 0..decisions.len()
        invariant
            views(decisions@) == after@.graph.decisions,
            views(r@) == became_stale(before@, after@, i as int),
    {
        let ghost rest = views(r@);
        let id = decisions[i].id.as_str();
        assert(views(decisions@)[i as int] == decisions@[i as int]@);
        if stale(after, id) && !stale(before, id) {
            r.push(decisions[i].id.clone());
            assert(views(r@) =~= rest.push(id@));
        }
    }
    assert(views(decisions@).len() == decisions@.len());
    r
}

/// What setting a status did.
#[derive(Debug)]
pub struct StatusReceipt {
    pub id: String,
    /// The decisions that became stale.
    pub newly_stale: Vec<String>,
}

/// What a [`StatusReceipt`] stands for.
#[verifier::ext_equal]
pub struct StatusReceiptView {
    pub id: Seq<char>,
    pub newly_stale: Seq<Seq<char>>,
}

impl View for StatusReceipt {
    type V = StatusReceiptView;

    open spec fn view(&self) -> StatusReceiptView {
        StatusReceiptView { id: self.id@, newly_stale: views(self.newly_stale@) }
    }
}

/// The receipt for a status that was set, given the snapshots before and after.
pub fn status_receipt(id: &str, before: &Snapshot, after: &Snapshot) -> (r: StatusReceipt)
    ensures
        r@ == (StatusReceiptView {
            id: id@,
            newly_stale: became_stale(before@, after@, after@.graph.decisions.len() as int),
        }),
{
    StatusReceipt { id: id.to_string(), newly_stale: newly_stale(before, after) }
}

impl<E: Embedder> Engine<E> {
    /// Reads the corpus anew after a status was written, and gives the receipt:
    /// which decisions the change made stale. Where building fails, the engine
    /// stays as it is.
    pub fn status_written<F: Fn(&str) -> Result<RawRecord, String>>(
        &mut self,
        id: &str,
        files: &Vec<SourceFile>,
        found: Vec<Diagnostic>,
        decode: &F,
        cache: &mut VectorCache,
    ) -> (r: Result<StatusReceipt, String>)
        requires
            forall|yaml: &str| call_requires(*decode, (yaml,)),
            files.len() <= u32::MAX,
        ensures
            final(self).config_of() == old(self).config_of(),
            final(self).embedder_of() == old(self).embedder_of(),
            exists|built: Result<Snapshot, BuildError>| #[trigger]
                builds(
                    views(files@),
                    views(found@),
                    *decode,
                    &old(self).embedder_of(),
                    old(cache)@,
                    built,
                    final(cache)@,
                ) && match built {
                    Ok(snap) => {
                        &&& final(self).snapshot_of() == snap
                        &&& r is Ok
                        &&& r->Ok_0@ == (StatusReceiptView {
                            id: id@,
                            newly_stale: became_stale(
                                old(self).snapshot_of()@,
                                snap@,
                                snap@.graph.decisions.len() as int,
                            ),
                        })
                    },
                    Err(e) => r is Err && r->Err_0@ == failure(e) && final(self).snapshot_of()
                        == old(self).snapshot_of(),
                },
    {
        let ghost cache0 = cache@;
        let ghost problems = views(found@);
        let ghost embedder = self.embedder_of();
        let built = Snapshot::build(files, found, decode, self.embedder(), cache);
        let receipt = match &built {
            Ok(snap) => {
                proof {
                    law_built_is_sound(
                        views(files@),
                        problems,
                        *decode,
                        &embedder,
                        cache0,
                        built,
                        cache@,
                    );
                }
                status_receipt(id, self.snapshot(), snap)
            },
            Err(_) => StatusReceipt { id: id.to_string(), newly_stale: Vec::new() },
        };
        assert(builds(views(files@), problems, *decode, &embedder, cache0, built, cache@));
        match self.take_over(built) {
            Ok(_) => Ok(receipt),
            Err(m) => Err(m),
        }
    }

    /// Plans the commit of a proposal against the corpus as it is now. The
    /// records are composed anew from what was proposed; of what was composed
    /// then, only the date of the decision counts.
    pub fn commit<F: Fn(&Vector, &Vector) -> Single>(&self, proposed: Proposed, similarity: &F) -> (r:
        Result<Commit, String>)
        requires
            forall|a: &Vector, b: &Vector| call_requires(*similarity, (a, b)),
            proposed.input.forces.len() <= u32::MAX,
        ensures
            exists|hits: Seq<Seq<HitView>>, today: Seq<char>|
                iso_day(today) is Some && nears_result(
                    &self.snapshot_of(),
                    &self.embedder_of(),
                    *similarity,
                    self.config_of().dedup.warn,
                    proposed.input@.forces,
                    hits,
                ) && commit_view(r) == #[trigger] commit_of(
                    self.snapshot_of()@.graph,
                    self.config_of().write_dir@,
                    self.config_of().dedup.reuse,
                    proposed.input@,
                    hits,
                    proposed.decision.date@,
                    today,
                ),
    {
        let input = &proposed.input;
        let snap = self.snapshot();
        let hits = find_nears(
            snap,
            self.embedder(),
            similarity,
            self.config().dedup.warn,
            &input.forces,
        );
        let today = today_iso();
        let ghost hs = hit_views(hits@);
        let r = plan_commit(
            &snap.graph,
            self.config().write_dir.as_str(),
            self.config().dedup.reuse,
            input,
            &hits,
            proposed.decision.date.as_str(),
            today.as_str(),
        );
        assert(commit_view(r) == commit_of(
            self.snapshot_of()@.graph,
            self.config_of().write_dir@,
            self.config_of().dedup.reuse,
            proposed.input@,
            hs,
            proposed.decision.date@,
            today@,
        ));
        r
    }

    /// Plans to set the status of a record today.
    pub fn set_status(&self, id: &str, word: &str, anchors: &str) -> (r: Result<NewFile, String>)
        ensures
            exists|today: Seq<char>|
                iso_day(today) is Some && change_view(r) == #[trigger] status_change(
                    self.snapshot_of()@.graph,
                    id@,
                    word@,
                    anchors@,
                    today,
                ),
    {
        let today = today_iso();
        let r = plan_status(&self.snapshot().graph, id, word, anchors, today.as_str());
        assert(change_view(r) == status_change(
            self.snapshot_of()@.graph,
            id@,
            word@,
            anchors@,
            today@,
        ));
        r
    }
}

/// What the forces of a commit come to: new forces with ids of their own, each
/// with a history, and each cited.
pub proof fn lemma_settled(
    g: GraphView,
    forces: Seq<ForceInputView>,
    hits: Seq<Seq<HitView>>,
    reuse: Double,
    today: Seq<char>,
    n: int,
)
    requires
        0 <= n <= forces.len(),
        iso_day(today) is Some,
    ensures
        ({
            let s = settled(g, forces, hits, reuse, today, n);
            &&& s.created.no_duplicates()
            &&& s.made.len() == s.created.len()
            &&& s.cites.len() == n
            &&& forall|i: int|
                0 <= i < s.made.len() ==> {
                    let f = #[trigger] s.made[i];
                    &&& f.id == s.created[i]
                    &&& g.lookup(f.id) is None
                    &&& valid_log(f.status_log)
                    &&& s.cites.contains(f.id)
                }
        }),
    decreases n,
{
    if n > 0 {
        lemma_settled(g, forces, hits, reuse, today, n - 1);
        let s = settled(g, forces, hits, reuse, today, n - 1);
        let t = settled(g, forces, hits, reuse, today, n);
        lemma_push_contains(s.cites, t.cites.last());
        assert(t.cites =~= s.cites.push(t.cites.last()));
        if let ForceInputView::New { title, body, force_new } = forces[n - 1] {
            let own = hits[new_titles(forces, n - 1).len() as int];
            if !is_reused(force_new, own, reuse) {
                let id = free_id(g, s.created, base_id("f"@, title));
                law_new_ids_are_free(g, s.created, base_id("f"@, title));
                lemma_push_contains(s.created, id);
                let log = new_force(id, title, body, today).status_log;
                assert(log_days(log)[0] == iso_day(today));
                assert(valid_log(log));
                assert(t.created =~= s.created.push(id));
            }
        }
        assert forall|i: int| 0 <= i < t.made.len() implies {
            let f = #[trigger] t.made[i];
            &&& f.id == t.created[i]
            &&& g.lookup(f.id) is None
            &&& valid_log(f.status_log)
            &&& t.cites.contains(f.id)
        } by {
            if i < s.made.len() {
                assert(t.made[i] == s.made[i]);
                assert(s.cites.contains(s.made[i].id));
            }
        }
    }
}

/// A commit only adds: the ids of what it makes differ from each other, and no
/// record of the corpus has any of them.
pub proof fn law_commit_only_adds(
    g: GraphView,
    dir: Seq<char>,
    reuse: Double,
    input: ProposeInputView,
    hits: Seq<Seq<HitView>>,
    date: Seq<char>,
    today: Seq<char>,
)
    requires
        iso_day(today) is Some,
        commit_of(g, dir, reuse, input, hits, date, today) is Ok,
    ensures
        ({
            let receipt = commit_of(g, dir, reuse, input, hits, date, today)->Ok_0.receipt;
            let ids = receipt.created_force_ids.push(receipt.decision_id);
            &&& ids.no_duplicates()
            &&& forall|i: int| 0 <= i < ids.len() ==> g.lookup(#[trigger] ids[i]) is None
            &&& commit_of(g, dir, reuse, input, hits, date, today)->Ok_0.files.len() == ids.len()
            &&& forall|i: int|
                0 <= i < ids.len() ==> (#[trigger] commit_of(
                    g,
                    dir,
                    reuse,
                    input,
                    hits,
                    date,
                    today,
                )->Ok_0.files[i]).path == record_path(dir, ids[i])
        }),
{
    let n = input.forces.len() as int;
    let s = settled(g, input.forces, hits, reuse, today, n);
    lemma_settled(g, input.forces, hits, reuse, today, n);
    law_new_ids_are_free(g, s.created, base_id("d"@, input.title));
    let d = committed_decision(g, input, s, date);
    let ids = s.created.push(d.id);
    lemma_push_contains(s.created, d.id);
    assert forall|i: int| 0 <= i < ids.len() implies g.lookup(#[trigger] ids[i]) is None by {
        if i < s.created.len() {
            assert(s.made[i].id == s.created[i]);
        }
    }
    assert forall|i: int| 0 <= i < ids.len() implies (#[trigger] commit_of(
        g,
        dir,
        reuse,
        input,
        hits,
        date,
        today,
    )->Ok_0.files[i]).path == record_path(dir, ids[i]) by {
        if i < s.made.len() {
            assert(s.made[i].id == s.created[i]);
        }
    }
}

/// No force is made that is the same as an existing one: each new force whose
/// best match reaches the threshold, and that is not said to be new, is
/// replaced by that match, which the decision cites.
pub proof fn law_commit_reuses_forces(
    g: GraphView,
    forces: Seq<ForceInputView>,
    hits: Seq<Seq<HitView>>,
    reuse: Double,
    today: Seq<char>,
    n: int,
)
    requires
        0 < n <= forces.len(),
        forces[n - 1] is New,
        is_reused(
            forces[n - 1]->force_new,
            hits[new_titles(forces, n - 1).len() as int],
            reuse,
        ),
    ensures
        ({
            let s = settled(g, forces, hits, reuse, today, n - 1);
            let t = settled(g, forces, hits, reuse, today, n);
            let match_id = hits[new_titles(forces, n - 1).len() as int][0].id;
            t.made == s.made && t.cites == s.cites.push(match_id) && t.reused == s.reused.push(
                match_id,
            )
        }),
{
}

/// Every other new force is made: the decision cites it under an id of its own,
/// and a warning names the forces that are nearly the same, if there are any.
pub proof fn law_commit_makes_other_forces(
    g: GraphView,
    forces: Seq<ForceInputView>,
    hits: Seq<Seq<HitView>>,
    reuse: Double,
    today: Seq<char>,
    n: int,
)
    requires
        0 < n <= forces.len(),
        forces[n - 1] is New,
        !is_reused(
            forces[n - 1]->force_new,
            hits[new_titles(forces, n - 1).len() as int],
            reuse,
        ),
    ensures
        ({
            let s = settled(g, forces, hits, reuse, today, n - 1);
            let t = settled(g, forces, hits, reuse, today, n);
            let own = hits[new_titles(forces, n - 1).len() as int];
            let id = t.created.last();
            &&& t.created == s.created.push(id)
            &&& t.cites == s.cites.push(id)
            &&& !is_taken(g, s.created, id)
            &&& t.made == s.made.push(
                new_force(id, forces[n - 1]->title, forces[n - 1]->body, today),
            )
            &&& t.reused == s.reused
            &&& t.warnings == if own.len() > 0 {
                s.warnings.push(NearView { force_id: id, hits: own })
            } else {
                s.warnings
            }
        }),
{
    let s = settled(g, forces, hits, reuse, today, n - 1);
    law_new_ids_are_free(g, s.created, base_id("f"@, forces[n - 1]->title));
}

/// A status is set only where the history of the force goes on: what is
/// written then is the force with one more entry, and its log is a history.
pub proof fn law_status_goes_forward(
    g: GraphView,
    id: Seq<char>,
    f: ForceView,
    word: Seq<char>,
    anchors: Seq<char>,
    today: Seq<char>,
)
    requires
        g.lookup(id) == Some(RecordView::Force(f)),
    ensures
        status_change(g, id, word, anchors, today) is Ok <==> force_status(word) is Some
            && valid_log(extended(f, force_status(word)->0, today).status_log),
        valid_log(f.status_log) && force_status(word) is Some && status_change(
            g,
            id,
            word,
            anchors,
            today,
        ) is Ok ==> is_legal(f.current_status(), force_status(word)->0),
{
    if let Some(status) = force_status(word) {
        let log = extended(f, status, today).status_log;
        law_log_accepted(log);
        if valid_log(log) && f.status_log.len() > 0 {
            assert(passes(log, f.status_log.len() as int));
            assert(log[f.status_log.len() - 1] == f.status_log.last());
        }
    }
}

/// A graph in which a force has one more entry in its log.
pub open spec fn with_status(g: GraphView, k: int, status: ForceStatus, today: Seq<char>) -> GraphView {
    GraphView { forces: g.forces.update(k, extended(g.forces[k], status, today)), ..g }
}

/// Where a force is set to changed or retired, every decision that rests on
/// it, directly or over other forces, is stale.
pub proof fn law_setting_a_fall_makes_decisions_stale(
    g: GraphView,
    k: int,
    status: ForceStatus,
    today: Seq<char>,
    id: Seq<char>,
)
    requires
        0 <= k < g.forces.len(),
        status != ForceStatus::Holds,
        g.lookup(id) is Some,
        g.lookup(id)->0 is Decision,
        rests_on(g, g.forces[k].id, id),
    ensures
        verdict_on(with_status(g, k, status, today), id) is Stale,
{
    law_a_fall_reaches_all_that_rests_on_it(g, with_status(g, k, status, today), k, id);
}

proof fn lemma_became_stale(before: SnapshotView, after: SnapshotView, n: int, id: Seq<char>)
    requires
        0 <= n <= after.graph.decisions.len(),
    ensures
        became_stale(before, after, n).contains(id) <==> is_stale(after, id) && !is_stale(
            before,
            id,
        ) && exists|i: int| 0 <= i < n && (#[trigger] after.graph.decisions[i]).id == id,
    decreases n,
{
    if n > 0 {
        lemma_became_stale(before, after, n - 1, id);
        lemma_push_contains(became_stale(before, after, n - 1), after.graph.decisions[n - 1].id);
    }
}

/// The decisions that a change of status is said to make stale are exactly
/// those that are stale after it and were not before.
pub proof fn law_newly_stale_is_exact(before: SnapshotView, after: SnapshotView, id: Seq<char>)
    ensures
        became_stale(before, after, after.graph.decisions.len() as int).contains(id) <==> is_stale(
            after,
            id,
        ) && !is_stale(before, id) && exists|i: int|
            0 <= i < after.graph.decisions.len() && (#[trigger] after.graph.decisions[i]).id == id,
{
    lemma_became_stale(before, after, after.graph.decisions.len() as int, id);
}

/// Whether the force at `i` of a commit is replaced by the best of its near
/// matches: there is one whose score reaches the threshold, and the force is
/// not said to be new.
pub open spec fn is_replaced(
    forces: Seq<ForceInputView>,
    hits: Seq<Seq<HitView>>,
    reuse: Double,
    i: int,
) -> bool {
    let own = hits[news_before(forces, i)];
    match forces[i] {
        ForceInputView::New { force_new, .. } => force_new == false && own.len() > 0
            && own[0].score.at_least(reuse),
        ForceInputView::Existing { .. } => false,
    }
}

/// What each of the forces comes to.
pub proof fn lemma_settled_at(
    g: GraphView,
    forces: Seq<ForceInputView>,
    hits: Seq<Seq<HitView>>,
    reuse: Double,
    today: Seq<char>,
    n: int,
)
    requires
        0 <= n <= forces.len(),
    ensures
        ({
            let s = settled(g, forces, hits, reuse, today, n);
            &&& s.cites.len() == n
            &&& s.made.len() == s.created.len()
            &&& s.created.len() + s.reused.len() == news_before(forces, n)
            &&& forall|i: int|
                0 <= i < n ==> settled_place(s, forces, hits, reuse, today, #[trigger] s.cites[i], i)
            &&& forall|m: int|
                0 <= m < s.warnings.len() ==> is_warned(
                    s,
                    forces,
                    hits,
                    reuse,
                    #[trigger] s.warnings[m],
                    n,
                )
        }),
    decreases n,
{
    if n > 0 {
        lemma_settled_at(g, forces, hits, reuse, today, n - 1);
        lemma_news(forces, n - 1);
        let s = settled(g, forces, hits, reuse, today, n - 1);
        let t = settled(g, forces, hits, reuse, today, n);
        let own = hits[news_before(forces, n - 1)];
        assert(t.cites =~= s.cites.push(t.cites.last()));
        assert forall|i: int| 0 <= i < n implies settled_place(
            t,
            forces,
            hits,
            reuse,
            today,
            #[trigger] t.cites[i],
            i,
        ) by {
            if i < n - 1 {
                assert(t.cites[i] == s.cites[i]);
                assert(settled_place(s, forces, hits, reuse, today, s.cites[i], i));
                if forces[i] is New {
                    if is_replaced(forces, hits, reuse, i) {
                        let m = choose|m: int| 0 <= m < s.reused.len() && s.reused[m] == s.cites[i];
                        assert(t.reused[m] == s.cites[i]);
                    } else {
                        let k = choose|k: int|
                            0 <= k < s.created.len() && #[trigger] s.created[k] == s.cites[i]
                                && s.made[k] == new_force(
                                s.cites[i],
                                forces[i]->title,
                                forces[i]->body,
                                today,
                            );
                        assert(t.created[k] == s.cites[i] && t.made[k] == s.made[k]);
                        let w = NearView {
                            force_id: s.cites[i],
                            hits: hits[news_before(forces, i)],
                        };
                        if s.warnings.contains(w) {
                            let m = choose|m: int| 0 <= m < s.warnings.len() && s.warnings[m] == w;
                            assert(t.warnings[m] == w);
                        }
                    }
                }
            } else if forces[i] is New {
                if is_replaced(forces, hits, reuse, i) {
                    assert(t.reused[s.reused.len() as int] == t.cites[i]);
                } else {
                    let k = s.created.len() as int;
                    assert(t.created[k] == t.cites[i]);
                    assert(t.made[k] == new_force(
                        t.cites[i],
                        forces[i]->title,
                        forces[i]->body,
                        today,
                    ));
                    if own.len() > 0 {
                        assert(t.warnings[s.warnings.len() as int] == (NearView {
                            force_id: t.cites[i],
                            hits: own,
                        }));
                    }
                }
            }
        }
        assert forall|m: int| 0 <= m < t.warnings.len() implies is_warned(
            t,
            forces,
            hits,
            reuse,
            #[trigger] t.warnings[m],
            n,
        ) by {
            if m < s.warnings.len() {
                assert(t.warnings[m] == s.warnings[m]);
                let i = choose|i: int|
                    0 <= i < n - 1 && warned_at(s, forces, hits, reuse, s.warnings[m], i);
                assert(t.cites[i] == s.cites[i]);
                assert(warned_at(t, forces, hits, reuse, t.warnings[m], i));
            } else {
                assert(warned_at(t, forces, hits, reuse, t.warnings[m], n - 1));
            }
        }
    }
}

/// Whether a warning is on one of the first `n` forces.
pub open spec fn is_warned(
    s: SettledView,
    forces: Seq<ForceInputView>,
    hits: Seq<Seq<HitView>>,
    reuse: Double,
    w: NearView,
    n: int,
) -> bool {
    exists|i: int| 0 <= i < n && #[trigger] warned_at(s, forces, hits, reuse, w, i)
}

/// Whether a warning is on the force at `i`.
pub open spec fn warned_at(
    s: SettledView,
    forces: Seq<ForceInputView>,
    hits: Seq<Seq<HitView>>,
    reuse: Double,
    w: NearView,
    i: int,
) -> bool {
    &&& forces[i] is New
    &&& !is_replaced(forces, hits, reuse, i)
    &&& w.force_id == s.cites[i]
    &&& w.hits == hits[news_before(forces, i)]
    &&& w.hits.len() > 0
}

/// What the force at `i` comes to, under the id that is cited for it.
pub open spec fn settled_place(
    s: SettledView,
    forces: Seq<ForceInputView>,
    hits: Seq<Seq<HitView>>,
    reuse: Double,
    today: Seq<char>,
    cited: Seq<char>,
    i: int,
) -> bool {
    let own = hits[news_before(forces, i)];
    match forces[i] {
        ForceInputView::Existing { id } => cited == id,
        ForceInputView::New { title, body, .. } => if is_replaced(forces, hits, reuse, i) {
            cited == own[0].id && s.reused.contains(cited)
        } else {
            &&& exists|k: int|
                0 <= k < s.created.len() && #[trigger] s.created[k] == cited && s.made[k]
                    == new_force(cited, title, body, today)
            &&& own.len() > 0 ==> s.warnings.contains(NearView { force_id: cited, hits: own })
        },
    }
}

proof fn lemma_problems(g: GraphView, forces: Seq<ForceInputView>, n: int, x: Seq<char>)
    requires
        0 <= n <= forces.len(),
    ensures
        force_problems(g, forces, n).contains(x) <==> exists|i: int|
            0 <= i < n && is_unknown(g, #[trigger] forces[i]) && x == "unknown force id "@
                + forces[i]->id,
    decreases n,
{
    if n > 0 {
        lemma_problems(g, forces, n - 1, x);
        if let ForceInputView::Existing { id } = forces[n - 1] {
            lemma_push_contains(force_problems(g, forces, n - 1), "unknown force id "@ + id);
        }
    }
}

/// A commit is refused exactly where the proposal names a record that does not
/// exist, or where its date is none. In the first place the message tells of
/// each such id, and otherwise of the date.
pub proof fn law_commits_are_refused_exactly(
    g: GraphView,
    dir: Seq<char>,
    reuse: Double,
    input: ProposeInputView,
    hits: Seq<Seq<HitView>>,
    date: Seq<char>,
    today: Seq<char>,
)
    ensures
        ({
            let r = commit_of(g, dir, reuse, input, hits, date, today);
            let unknown = exists|i: int|
                0 <= i < input.forces.len() && is_unknown(g, #[trigger] input.forces[i]);
            &&& r is Err <==> unknown || iso_day(date) is None
            &&& unknown ==> exists|list: Seq<Seq<char>>|
                r->Err_0 == #[trigger] joined_texts(list, "; "@) && list.len() > 0 && forall|
                    x: Seq<char>,
                | #[trigger]
                    list.contains(x) <==> exists|i: int|
                        0 <= i < input.forces.len() && is_unknown(g, #[trigger] input.forces[i]) && x
                            == "unknown force id "@ + input.forces[i]->id
            &&& !unknown && iso_day(date) is None ==> r->Err_0 == "invalid date format: "@ + date
        }),
{
    let n = input.forces.len() as int;
    let list = force_problems(g, input.forces, n);
    assert forall|x: Seq<char>| #[trigger] list.contains(x) <==> exists|i: int|
        0 <= i < n && is_unknown(g, #[trigger] input.forces[i]) && x == "unknown force id "@
            + input.forces[i]->id by {
        lemma_problems(g, input.forces, n, x);
    }
    if list.len() > 0 {
        assert(list.contains(list[0]));
        let i = choose|i: int|
            0 <= i < n && is_unknown(g, #[trigger] input.forces[i]) && list[0]
                == "unknown force id "@ + input.forces[i]->id;
        assert(is_unknown(g, input.forces[i]));
    }
    if exists|i: int| 0 <= i < n && is_unknown(g, #[trigger] input.forces[i]) {
        let i = choose|i: int| 0 <= i < n && is_unknown(g, #[trigger] input.forces[i]);
        assert(list.contains("unknown force id "@ + input.forces[i]->id));
    }
}

/// A decision that is deprecated keeps all of its content but its status, which
/// is deprecated, and its date, which is the day of the change.
pub proof fn law_deprecating_keeps_the_content(d: DecisionView, today: Seq<char>)
    ensures
        ({
            let e = deprecated(d, today);
            &&& e.status == DecisionStatus::Deprecated
            &&& e.date == today
            &&& e.id == d.id
            &&& e.title == d.title
            &&& e.cites == d.cites
            &&& e.supersedes == d.supersedes
            &&& e.relates == d.relates
            &&& e.anchors == d.anchors
            &&& e.tags == d.tags
            &&& e.body == d.body
            &&& e.path == d.path
        }),
{
}

/// A force whose status is set keeps all of its content and all of its history,
/// which goes on with one entry: the status, and the day of the change.
pub proof fn law_setting_a_status_keeps_the_content(
    f: ForceView,
    status: ForceStatus,
    today: Seq<char>,
)
    ensures
        ({
            let h = extended(f, status, today);
            &&& h.id == f.id
            &&& h.title == f.title
            &&& h.depends_on == f.depends_on
            &&& h.superseded_by == f.superseded_by
            &&& h.tags == f.tags
            &&& h.body == f.body
            &&& h.path == f.path
            &&& h.status_log.len() == f.status_log.len() + 1
            &&& forall|i: int|
                0 <= i < f.status_log.len() ==> #[trigger] h.status_log[i] == f.status_log[i]
            &&& h.status_log[f.status_log.len() as int].status == status
            &&& h.status_log[f.status_log.len() as int].since == today
        }),
{
}

/// A status is set exactly where the record exists and the change is legal. A
/// force goes from holding to changed or retired, and from changed to retired,
/// and not back in time; a decision goes from accepted to deprecated.
pub proof fn law_statuses_are_set_exactly_where_legal(
    g: GraphView,
    id: Seq<char>,
    word: Seq<char>,
    anchors: Seq<char>,
    today: Seq<char>,
)
    requires
        iso_day(today) is Some,
        forall|i: int|
            0 <= i < g.forces.len() ==> valid_log((#[trigger] g.forces[i]).status_log),
    ensures
        status_change(g, id, word, anchors, today) is Ok <==> match g.lookup(id) {
            None => false,
            Some(RecordView::Force(f)) => {
                let last = f.status_log.last();
                &&& iso_day(last.since)->0 <= iso_day(today)->0
                &&& (last.status == ForceStatus::Holds && word == "changed"@) || (last.status
                    == ForceStatus::Holds && word == "retired"@) || (last.status
                    == ForceStatus::Changed && word == "retired"@)
            },
            Some(RecordView::Decision(d)) => d.status == DecisionStatus::Accepted && word
                == "deprecated"@,
        },
{
    reveal_strlit("holds");
    reveal_strlit("changed");
    reveal_strlit("retired");
    assert("holds"@.len() == 5 && "changed"@.len() == 7 && "retired"@.len() == 7);
    assert("changed"@[0] == 'c' && "retired"@[0] == 'r');
    if let Some(RecordView::Force(f)) = g.lookup(id) {
        law_lookup(g, id);
        let k = choose|k: int| 0 <= k < g.records().len() && g.records()[k] == RecordView::Force(f);
        let j = k - g.decisions.len();
        assert(j >= 0);
        assert(g.forces[j] == f);
        assert(valid_log(g.forces[j].status_log));
        law_status_goes_forward(g, id, f, word, anchors, today);
        if let Some(status) = force_status(word) {
            let log = extended(f, status, today).status_log;
            let n = f.status_log.len() as int;
            let days = log_days(log);
            let old_days = log_days(f.status_log);
            assert(forall|i: int| 0 <= i < n ==> #[trigger] days[i] == old_days[i]);
            assert(days[n] == iso_day(today));
            assert(old_days[n - 1] == iso_day(f.status_log.last().since));
            if valid_log(log) {
                assert(follows(days, n));
                assert(passes(log, n));
            }
            if is_legal(f.status_log.last().status, status) && old_days[n - 1]->0 <= days[n]->0 {
                assert forall|i: int| 0 <= i < log.len() implies (#[trigger] log_days(log)[i]) is Some by {
                    if i < n {
                        assert(old_days[i] is Some);
                    }
                }
                assert forall|i: int| 1 <= i < log.len() implies #[trigger] follows(
                    log_days(log),
                    i,
                ) by {
                    if i < n {
                        assert(follows(old_days, i));
                    }
                }
                assert forall|i: int| 1 <= i < log.len() implies #[trigger] passes(log, i) by {
                    if i < n {
                        assert(passes(f.status_log, i));
                    }
                }
                assert(valid_log(log));
            }
        }
    }
}

/// What the refusals to set a status say.
pub proof fn law_refused_statuses_say_why(
    g: GraphView,
    id: Seq<char>,
    word: Seq<char>,
    anchors: Seq<char>,
    today: Seq<char>,
)
    ensures
        ({
            let r = status_change(g, id, word, anchors, today);
            match g.lookup(id) {
                None => r == Err::<NewFileView, Seq<char>>("unknown id "@ + id),
                Some(RecordView::Force(_)) => word != "holds"@ && word != "changed"@ && word
                    != "retired"@ ==> r == Err::<NewFileView, Seq<char>>(
                    "unknown force status "@ + word,
                ),
                Some(RecordView::Decision(d)) => {
                    &&& word != "deprecated"@ ==> r == Err::<NewFileView, Seq<char>>(
                        "unknown decision status "@ + word,
                    )
                    &&& word == "deprecated"@ && d.status != DecisionStatus::Accepted ==> r
                        == Err::<NewFileView, Seq<char>>(
                        "only an accepted decision can be deprecated: "@ + id,
                    )
                },
            }
        }),
{
}

proof fn lemma_newly_apart(before: SnapshotView, after: SnapshotView, n: int)
    requires
        distinct_ids(after.graph),
        0 <= n <= after.graph.decisions.len(),
    ensures
        became_stale(before, after, n).no_duplicates(),
    decreases n,
{
    if n > 0 {
        lemma_newly_apart(before, after, n - 1);
        let g = after.graph;
        let id = g.decisions[n - 1].id;
        lemma_became_stale(before, after, n - 1, id);
        if became_stale(before, after, n - 1).contains(id) {
            let i = choose|i: int| 0 <= i < n - 1 && (#[trigger] g.decisions[i]).id == id;
            assert(g.records()[i] == RecordView::Decision(g.decisions[i]));
            assert(g.records()[n - 1] == RecordView::Decision(g.decisions[n - 1]));
        }
    }
}

/// A change of status is said to make stale just those decisions that have a
/// stale verdict after it and none before it, each once.
pub proof fn law_newly_stale_by_the_verdicts(
    before: SnapshotView,
    after: SnapshotView,
    id: Seq<char>,
)
    requires
        distinct_ids(after.graph),
    ensures
        ({
            let list = became_stale(before, after, after.graph.decisions.len() as int);
            &&& list.contains(id) <==> (exists|i: int|
                0 <= i < after.graph.decisions.len() && (#[trigger] after.graph.decisions[i]).id
                    == id) && after.verdicts.premise.contains_key(id)
                && after.verdicts.premise[id] is Stale && !(before.verdicts.premise.contains_key(id)
                && before.verdicts.premise[id] is Stale)
            &&& list.no_duplicates()
        }),
{
    law_newly_stale_is_exact(before, after, id);
    lemma_newly_apart(before, after, after.graph.decisions.len() as int);
}

/// Whether the force at `i` of a commit is made.
pub open spec fn is_made(
    forces: Seq<ForceInputView>,
    hits: Seq<Seq<HitView>>,
    reuse: Double,
    i: int,
) -> bool {
    forces[i] is New && !is_replaced(forces, hits, reuse, i)
}

/// Whether the force at `i` of a commit is made although others are near it.
pub open spec fn is_made_near_others(
    forces: Seq<ForceInputView>,
    hits: Seq<Seq<HitView>>,
    reuse: Double,
    i: int,
) -> bool {
    is_made(forces, hits, reuse, i) && hits[news_before(forces, i)].len() > 0
}

/// How many of the first `n` places have a property.
pub open spec fn how_many(has: spec_fn(int) -> bool, n: int) -> int
    decreases n,
{
    if n <= 0 {
        0
    } else if has(n - 1) {
        how_many(has, n - 1) + 1
    } else {
        how_many(has, n - 1)
    }
}

/// What a receipt of a commit lists of the force at `i`, where the decision cites
/// `cited` for it: the force among those that were made, or that were reused, in
/// its turn, and the warning on it in its turn.
pub open spec fn is_listed(
    receipt: ReceiptView,
    forces: Seq<ForceInputView>,
    hits: Seq<Seq<HitView>>,
    reuse: Double,
    cited: Seq<char>,
    i: int,
) -> bool {
    let own = hits[news_before(forces, i)];
    &&& is_made(forces, hits, reuse, i) ==> receipt.created_force_ids[how_many(
        |j: int| is_made(forces, hits, reuse, j),
        i,
    )] == cited
    &&& is_replaced(forces, hits, reuse, i) ==> receipt.reused[how_many(
        |j: int| is_replaced(forces, hits, reuse, j),
        i,
    )] == cited
    &&& is_made_near_others(forces, hits, reuse, i) ==> receipt.warnings[how_many(
        |j: int| is_made_near_others(forces, hits, reuse, j),
        i,
    )] == (NearView { force_id: cited, hits: own })
}

proof fn lemma_how_many(has: spec_fn(int) -> bool, i: int, n: int)
    requires
        0 <= i < n,
    ensures
        0 <= how_many(has, i) <= how_many(has, n),
        has(i) ==> how_many(has, i) < how_many(has, n),
    decreases n,
{
    if i < n - 1 {
        lemma_how_many(has, i, n - 1);
    } else {
        lemma_how_many_least(has, i);
    }
}

proof fn lemma_how_many_least(has: spec_fn(int) -> bool, i: int)
    ensures
        how_many(has, i) >= 0,
    decreases i,
{
    if i > 0 {
        lemma_how_many_least(has, i - 1);
    }
}

/// The lists of a receipt follow the order of the forces.
pub proof fn lemma_settled_in_order(
    g: GraphView,
    forces: Seq<ForceInputView>,
    hits: Seq<Seq<HitView>>,
    reuse: Double,
    today: Seq<char>,
    n: int,
    id: Seq<char>,
)
    requires
        0 <= n <= forces.len(),
    ensures
        ({
            let s = settled(g, forces, hits, reuse, today, n);
            let receipt = ReceiptView {
                decision_id: id,
                created_force_ids: s.created,
                reused: s.reused,
                warnings: s.warnings,
            };
            &&& s.cites.len() == n
            &&& s.created.len() == how_many(|j: int| is_made(forces, hits, reuse, j), n)
            &&& s.reused.len() == how_many(|j: int| is_replaced(forces, hits, reuse, j), n)
            &&& s.warnings.len() == how_many(
                |j: int| is_made_near_others(forces, hits, reuse, j),
                n,
            )
            &&& forall|i: int|
                0 <= i < n ==> is_listed(receipt, forces, hits, reuse, #[trigger] s.cites[i], i)
        }),
    decreases n,
{
    if n > 0 {
        lemma_settled_in_order(g, forces, hits, reuse, today, n - 1, id);
        lemma_news(forces, n - 1);
        let made = |j: int| is_made(forces, hits, reuse, j);
        let replaced = |j: int| is_replaced(forces, hits, reuse, j);
        let near_others = |j: int| is_made_near_others(forces, hits, reuse, j);
        let s = settled(g, forces, hits, reuse, today, n - 1);
        let t = settled(g, forces, hits, reuse, today, n);
        let before = ReceiptView {
            decision_id: id,
            created_force_ids: s.created,
            reused: s.reused,
            warnings: s.warnings,
        };
        let receipt = ReceiptView {
            decision_id: id,
            created_force_ids: t.created,
            reused: t.reused,
            warnings: t.warnings,
        };
        assert(t.cites =~= s.cites.push(t.cites.last()));
        assert forall|i: int| 0 <= i < n implies is_listed(
            receipt,
            forces,
            hits,
            reuse,
            #[trigger] t.cites[i],
            i,
        ) by {
            if i < n - 1 {
                assert(t.cites[i] == s.cites[i]);
                assert(is_listed(before, forces, hits, reuse, s.cites[i], i));
                lemma_how_many(made, i, n - 1);
                lemma_how_many(replaced, i, n - 1);
                lemma_how_many(near_others, i, n - 1);
            }
        }
    }
}

/// The receipt of a commit lists what was made, what was reused and what was
/// warned of, as much as there was, and in the order of the forces.
pub proof fn law_receipts_follow_the_forces(
    g: GraphView,
    dir: Seq<char>,
    reuse: Double,
    input: ProposeInputView,
    hits: Seq<Seq<HitView>>,
    date: Seq<char>,
    today: Seq<char>,
    i: int,
)
    requires
        commit_of(g, dir, reuse, input, hits, date, today) is Ok,
        0 <= i < input.forces.len(),
    ensures
        ({
            let receipt = commit_of(g, dir, reuse, input, hits, date, today)->Ok_0.receipt;
            let n = input.forces.len() as int;
            &&& receipt.created_force_ids.len() == how_many(
                |j: int| is_made(input.forces, hits, reuse, j),
                n,
            )
            &&& receipt.reused.len() == how_many(
                |j: int| is_replaced(input.forces, hits, reuse, j),
                n,
            )
            &&& receipt.warnings.len() == how_many(
                |j: int| is_made_near_others(input.forces, hits, reuse, j),
                n,
            )
            &&& exists|cited: Seq<char>| #[trigger]
                is_listed(receipt, input.forces, hits, reuse, cited, i)
        }),
{
    let n = input.forces.len() as int;
    let receipt = commit_of(g, dir, reuse, input, hits, date, today)->Ok_0.receipt;
    lemma_settled_in_order(g, input.forces, hits, reuse, today, n, receipt.decision_id);
    let s = settled(g, input.forces, hits, reuse, today, n);
    assert(is_listed(receipt, input.forces, hits, reuse, s.cites[i], i));
}

proof fn lemma_created_ids(
    g: GraphView,
    forces: Seq<ForceInputView>,
    hits: Seq<Seq<HitView>>,
    reuse: Double,
    today: Seq<char>,
    n: int,
)
    requires
        0 <= n <= forces.len(),
    ensures
        ({
            let s = settled(g, forces, hits, reuse, today, n);
            let made = |j: int| is_made(forces, hits, reuse, j);
            &&& s.created.len() == how_many(made, n)
            &&& forall|i: int|
                0 <= i < n && #[trigger] is_made(forces, hits, reuse, i) ==> {
                    let k = how_many(made, i);
                    s.created[k] == free_id(
                        g,
                        s.created.take(k),
                        "f"@ + "-"@ + slug(forces[i]->title),
                    )
                }
        }),
    decreases n,
{
    if n > 0 {
        lemma_created_ids(g, forces, hits, reuse, today, n - 1);
        lemma_news(forces, n - 1);
        let made = |j: int| is_made(forces, hits, reuse, j);
        let s = settled(g, forces, hits, reuse, today, n - 1);
        let t = settled(g, forces, hits, reuse, today, n);
        assert forall|i: int| 0 <= i < n && #[trigger] is_made(forces, hits, reuse, i) implies {
            let k = how_many(made, i);
            t.created[k] == free_id(g, t.created.take(k), "f"@ + "-"@ + slug(forces[i]->title))
        } by {
            let k = how_many(made, i);
            if i < n - 1 {
                lemma_how_many(made, i, n - 1);
                assert(t.created[k] == s.created[k]);
                assert(t.created.take(k) =~= s.created.take(k));
            } else {
                assert(t.created.take(k) =~= s.created);
                assert(t.created[k] == t.created.last());
            }
        }
    }
}

/// The ids of a commit are named after the titles: the decision has `d-` and the
/// slug of its title, and each force that is made `f-` and the slug of its own,
/// with a number behind it where a record, or another of the commit, has it.
pub proof fn law_committed_ids_are_named_after_titles(
    g: GraphView,
    dir: Seq<char>,
    reuse: Double,
    input: ProposeInputView,
    hits: Seq<Seq<HitView>>,
    date: Seq<char>,
    today: Seq<char>,
    i: int,
)
    requires
        commit_of(g, dir, reuse, input, hits, date, today) is Ok,
    ensures
        ({
            let receipt = commit_of(g, dir, reuse, input, hits, date, today)->Ok_0.receipt;
            let made = receipt.created_force_ids;
            let k = how_many(|j: int| is_made(input.forces, hits, reuse, j), i);
            &&& receipt.decision_id == free_id(g, made, "d"@ + "-"@ + slug(input.title))
            &&& 0 <= i < input.forces.len() && is_made(input.forces, hits, reuse, i) ==> made[k]
                == free_id(g, made.take(k), "f"@ + "-"@ + slug(input.forces[i]->title))
        }),
{
    lemma_created_ids(g, input.forces, hits, reuse, today, input.forces.len() as int);
}

/// The decisions that a change made stale are told in the order of the corpus.
pub proof fn law_newly_stale_follow_the_corpus(
    before: SnapshotView,
    after: SnapshotView,
    a: int,
    b: int,
)
    requires
        0 <= a < b < became_stale(before, after, after.graph.decisions.len() as int).len(),
    ensures
        exists|i: int, j: int|
            0 <= i < j < after.graph.decisions.len() && (#[trigger] after.graph.decisions[i]).id
                == became_stale(before, after, after.graph.decisions.len() as int)[a] && (
            #[trigger] after.graph.decisions[j]).id == became_stale(
                before,
                after,
                after.graph.decisions.len() as int,
            )[b],
{
    lemma_stale_order(before, after, after.graph.decisions.len() as int, a, b);
}

proof fn lemma_stale_place(before: SnapshotView, after: SnapshotView, n: int, a: int) -> (i: int)
    requires
        0 <= n <= after.graph.decisions.len(),
        0 <= a < became_stale(before, after, n).len(),
    ensures
        0 <= i < n,
        after.graph.decisions[i].id == became_stale(before, after, n)[a],
    decreases n,
{
    let rest = became_stale(before, after, n - 1);
    if a < rest.len() {
        lemma_stale_place(before, after, n - 1, a)
    } else {
        n - 1
    }
}

proof fn lemma_stale_order(before: SnapshotView, after: SnapshotView, n: int, a: int, b: int)
    requires
        0 <= n <= after.graph.decisions.len(),
        0 <= a < b < became_stale(before, after, n).len(),
    ensures
        exists|i: int, j: int|
            0 <= i < j < n && (#[trigger] after.graph.decisions[i]).id == became_stale(
                before,
                after,
                n,
            )[a] && (#[trigger] after.graph.decisions[j]).id == became_stale(before, after, n)[b],
    decreases n,
{
    let rest = became_stale(before, after, n - 1);
    let ds = after.graph.decisions;
    if b < rest.len() {
        lemma_stale_order(before, after, n - 1, a, b);
        let (i, j) = choose|i: int, j: int|
            0 <= i < j < n - 1 && (#[trigger] ds[i]).id == rest[a] && (#[trigger] ds[j]).id
                == rest[b];
        assert(ds[i].id == rest[a] && ds[j].id == rest[b]);
    } else {
        let i = lemma_stale_place(before, after, n - 1, a);
        assert(ds[i].id == rest[a]);
        assert(ds[n - 1].id == became_stale(before, after, n)[b]);
    }
}

} // verus!
