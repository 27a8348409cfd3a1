//! What a snapshot answers: its title for an id, the stale decisions, and why
//! they are stale.
use vstd::prelude::*;
use crate::cycles::force_ids;
use crate::graph::{
    distinct_ids, law_lookup, law_lookup_finds, Graph, GraphView, Record, RecordView,
};
use crate::judge::{
    bears, distance, distances, fall_of, fells, is_chain, is_distance, is_link, judged,
    law_distance_is_least, law_every_decision_is_judged, law_fallen_premises_are_exact,
    law_frontier_is_the_present, law_stale_iff_rests_on_fallen,
    law_stale_where_a_chain_leads_to_a_fallen_force, law_verdicts_tell_of_forces_in_order,
    lemma_distance, lemma_of_chain,
    names_as_premise, rests, rests_on, verdict_on, FallenPremise, FallenPremiseView, PremiseVerdict,
    PremiseVerdictView,
};
use crate::order::{
    in_order, law_sorted_in_order, law_sorted_rearranges, lemma_sorted_contains, lemma_text_le_antisymmetric,
    lemma_text_le_total, lemma_text_le_transitive, sort, sorted, text_le, text_not_after, Ordered,
};
use crate::record::{DecisionView, Force, ForceStatus, ForceView};
use crate::snapshot::{Snapshot, SnapshotView};
use crate::text::{holds_text, join2, lemma_sum_contains, same_text, views};
use vstd::hash_map::StringHashMap;

verus! {

/// The name of a force's status.
pub open spec fn status_name(s: ForceStatus) -> Seq<char> {
    match s {
        ForceStatus::Holds => "holds"@,
        ForceStatus::Changed => "changed"@,
        ForceStatus::Retired => "retired"@,
    }
}

/// The name of a force's status.
pub fn force_status_name(s: ForceStatus) -> (r: &'static str)
    ensures
        r@ == status_name(s),
{
    match s {
        ForceStatus::Holds => "holds",
        ForceStatus::Changed => "changed",
        ForceStatus::Retired => "retired",
    }
}

/// A stale decision, and one of the fallen forces that it rests on.
pub struct StaleEntry {
    pub decision_id: String,
    pub decision_title: String,
    pub fallen_force_id: String,
    pub fallen_status: String,
    pub distance: u32,
    pub since: String,
}

/// What a [`StaleEntry`] stands for.
#[verifier::ext_equal]
pub struct StaleEntryView {
    pub decision_id: Seq<char>,
    pub decision_title: Seq<char>,
    pub fallen_force_id: Seq<char>,
    pub fallen_status: Seq<char>,
    pub distance: nat,
    pub since: Seq<char>,
}

impl View for StaleEntry {
    type V = StaleEntryView;

    open spec fn view(&self) -> StaleEntryView {
        StaleEntryView {
            decision_id: self.decision_id@,
            decision_title: self.decision_title@,
            fallen_force_id: self.fallen_force_id@,
            fallen_status: self.fallen_status@,
            distance: self.distance as nat,
            since: self.since@,
        }
    }
}

/// How bad a named status is: retired is worse than anything else.
pub open spec fn named_severity(status: Seq<char>) -> int {
    if status == "retired"@ {
        0
    } else {
        1
    }
}

impl Ordered for StaleEntry {
    /// Retired forces first, then the nearest, then the latest fall, then by
    /// the decision's id.
    open spec fn le(a: StaleEntryView, b: StaleEntryView) -> bool {
        if named_severity(a.fallen_status) != named_severity(b.fallen_status) {
            named_severity(a.fallen_status) < named_severity(b.fallen_status)
        } else if a.distance != b.distance {
            a.distance < b.distance
        } else if a.since != b.since {
            text_le(b.since, a.since)
        } else {
            text_le(a.decision_id, b.decision_id)
        }
    }

    proof fn le_total(a: StaleEntryView, b: StaleEntryView) {
        lemma_text_le_total(a.since, b.since);
        lemma_text_le_total(a.decision_id, b.decision_id);
    }

    proof fn le_transitive(a: StaleEntryView, b: StaleEntryView, c: StaleEntryView) {
        if text_le(c.since, b.since) && text_le(b.since, a.since) {
            lemma_text_le_transitive(c.since, b.since, a.since);
            if a.since == c.since && a.since != b.since {
                lemma_text_le_antisymmetric(a.since, b.since);
            }
        }
        if text_le(a.decision_id, b.decision_id) && text_le(b.decision_id, c.decision_id) {
            lemma_text_le_transitive(a.decision_id, b.decision_id, c.decision_id);
        }
    }

    fn not_after(&self, other: &Self) -> (r: bool) {
        let a = same_text(self.fallen_status.as_str(), "retired");
        let b = same_text(other.fallen_status.as_str(), "retired");
        if a != b {
            a
        } else if self.distance != other.distance {
            self.distance < other.distance
        } else if !same_text(self.since.as_str(), other.since.as_str()) {
            text_not_after(other.since.as_str(), self.since.as_str())
        } else {
            text_not_after(self.decision_id.as_str(), other.decision_id.as_str())
        }
    }
}

/// The title of the record with the given id; nothing where there is none.
pub open spec fn title_of(g: GraphView, id: Seq<char>) -> Seq<char> {
    match g.lookup(id) {
        Some(RecordView::Decision(d)) => d.title,
        Some(RecordView::Force(f)) => f.title,
        None => Seq::empty(),
    }
}

/// How a fallen premise of a decision is reported.
pub open spec fn stale_entry(g: GraphView, id: Seq<char>, p: FallenPremiseView) -> StaleEntryView {
    StaleEntryView {
        decision_id: id,
        decision_title: title_of(g, id),
        fallen_force_id: p.force_id,
        fallen_status: status_name(p.status),
        distance: p.distance,
        since: p.since,
    }
}

/// The reports on one decision.
pub open spec fn entries_for(s: SnapshotView, id: Seq<char>) -> Seq<StaleEntryView> {
    if s.verdicts.premise.contains_key(id) {
        match s.verdicts.premise[id] {
            PremiseVerdictView::Fresh => Seq::empty(),
            PremiseVerdictView::Stale { fallen } => fallen.map_values(
                |p: FallenPremiseView| stale_entry(s.graph, id, p),
            ),
        }
    } else {
        Seq::empty()
    }
}

/// The reports on a list of decisions.
pub open spec fn entries_among(s: SnapshotView, ids: Seq<Seq<char>>) -> Seq<StaleEntryView>
    decreases ids.len(),
{
    if ids.len() == 0 {
        Seq::empty()
    } else {
        entries_among(s, ids.drop_last()) + entries_for(s, ids.last())
    }
}

/// One force on the way from a decision to a force that fell.
pub struct WhyEntry {
    pub force_id: String,
    pub force_title: String,
    pub current_status: String,
    pub path: String,
}

/// What a [`WhyEntry`] stands for.
#[verifier::ext_equal]
pub struct WhyEntryView {
    pub force_id: Seq<char>,
    pub force_title: Seq<char>,
    pub current_status: Seq<char>,
    pub path: Seq<char>,
}

impl View for WhyEntry {
    type V = WhyEntryView;

    open spec fn view(&self) -> WhyEntryView {
        WhyEntryView {
            force_id: self.force_id@,
            force_title: self.force_title@,
            current_status: self.current_status@,
            path: self.path@,
        }
    }
}

/// How a force on the way is reported.
pub open spec fn why_entry(f: ForceView, path: Seq<char>) -> WhyEntryView {
    WhyEntryView {
        force_id: f.id,
        force_title: f.title,
        current_status: status_name(f.current_status()),
        path,
    }
}

/// The report of what is reached from the force `via`, if it is a force.
pub open spec fn via_entry(g: GraphView, id: Seq<char>, via: Seq<char>) -> Seq<WhyEntryView> {
    match g.lookup(id) {
        Some(RecordView::Force(f)) => seq![why_entry(f, "via "@ + via)],
        _ => Seq::empty(),
    }
}

/// The first of the ids, from `i` on, that lies `n` steps from `target`.
pub open spec fn nearer(
    g: GraphView,
    target: Seq<char>,
    ids: Seq<Seq<char>>,
    n: nat,
    i: int,
) -> Option<Seq<char>>
    decreases ids.len() - i,
{
    if i < 0 || i >= ids.len() {
        None
    } else if rests_on(g, target, ids[i]) && distance(g, target, ids[i]) == n {
        Some(ids[i])
    } else {
        nearer(g, target, ids, n, i + 1)
    }
}

/// The way from a force that lies `n` steps from `target` down to `target`,
/// along its dependencies.
pub open spec fn way(g: GraphView, target: Seq<char>, id: Seq<char>, n: nat) -> Seq<WhyEntryView>
    decreases n,
{
    if n == 0 {
        Seq::empty()
    } else {
        match g.lookup(id) {
            Some(RecordView::Force(f)) => match nearer(
                g,
                target,
                f.depends_on,
                (n - 1) as nat,
                0,
            ) {
                Some(next) => via_entry(g, next, id) + way(g, target, next, (n - 1) as nat),
                None => Seq::empty(),
            },
            _ => Seq::empty(),
        }
    }
}

/// The reports on one cited force in view of one force that fell: the cited
/// force itself, and the way from it to the other.
pub open spec fn cite_entries(g: GraphView, f: ForceView, target: Seq<char>) -> Seq<WhyEntryView> {
    seq![why_entry(f, "direct"@)] + (if f.depends_on.contains(target) {
        via_entry(g, target, f.id)
    } else if rests_on(g, target, f.id) {
        way(g, target, f.id, distance(g, target, f.id))
    } else {
        Seq::empty()
    })
}

/// The reports on a list of citations in view of one force that fell.
pub open spec fn cites_entries(g: GraphView, cites: Seq<Seq<char>>, target: Seq<char>) -> Seq<
    WhyEntryView,
>
    decreases cites.len(),
{
    if cites.len() == 0 {
        Seq::empty()
    } else {
        let before = cites_entries(g, cites.drop_last(), target);
        match g.lookup(cites.last()) {
            Some(RecordView::Force(f)) => before + cite_entries(g, f, target),
            _ => before,
        }
    }
}

/// The reports on a decision in view of the forces that fell.
pub open spec fn fallen_entries(
    g: GraphView,
    id: Seq<char>,
    fallen: Seq<FallenPremiseView>,
) -> Seq<WhyEntryView>
    decreases fallen.len(),
{
    if fallen.len() == 0 {
        Seq::empty()
    } else {
        let before = fallen_entries(g, id, fallen.drop_last());
        match g.lookup(id) {
            Some(RecordView::Decision(d)) => before + cites_entries(
                g,
                d.cites,
                fallen.last().force_id,
            ),
            _ => before,
        }
    }
}

/// Why a decision is stale: nothing for an id without a verdict, no reports
/// for a fresh decision, and otherwise the reports on what it cites.
pub open spec fn why_of(s: SnapshotView, id: Seq<char>) -> Option<Seq<WhyEntryView>> {
    if s.verdicts.premise.contains_key(id) {
        match s.verdicts.premise[id] {
            PremiseVerdictView::Fresh => Some(Seq::empty()),
            PremiseVerdictView::Stale { fallen } => Some(fallen_entries(s.graph, id, fallen)),
        }
    } else {
        None
    }
}

/// Whether every force of a graph has a status.
pub open spec fn has_statuses(g: GraphView) -> bool {
    forall|i: int| 0 <= i < g.forces.len() ==> (#[trigger] g.forces[i]).status_log.len() > 0
}

/// A force that is found is one of the forces.
pub proof fn lemma_found_force(g: GraphView, id: Seq<char>, f: ForceView)
    requires
        g.lookup(id) == Some(RecordView::Force(f)),
    ensures
        f.id == id,
        g.forces.contains(f),
        has_statuses(g) ==> f.status_log.len() > 0,
{
    law_lookup(g, id);
    let k = choose|k: int| 0 <= k < g.records().len() && g.records()[k] == RecordView::Force(f);
    let n = g.decisions.len() as int;
    assert(k >= n);
    assert(g.forces[k - n] == f);
}

fn make_why_entry(f: &Force, path: String) -> (r: WhyEntry)
    requires
        f@.status_log.len() > 0,
    ensures
        r@ == why_entry(f@, path@),
{
    WhyEntry {
        force_id: f.id.clone(),
        force_title: f.title.clone(),
        current_status: force_status_name(f.current_status()).to_string(),
        path,
    }
}

fn add_via(graph: &Graph, id: &str, via: &str, out: &mut Vec<WhyEntry>)
    requires
        has_statuses(graph@),
    ensures
        views(final(out)@) == views(old(out)@) + via_entry(graph@, id@, via@),
{
    let ghost first = views(out@);
    match graph.get(id) {
        Some(Record::Force(f)) => {
            proof {
                lemma_found_force(graph@, id@, f@);
            }
            let entry = make_why_entry(f, join2("via ", via));
            out.push(entry);
            assert(views(out@) =~= first + seq![entry@]);
        },
        _ => {
            assert(first + Seq::<WhyEntryView>::empty() =~= first);
        },
    }
}

/// Whether a map gives how far everything that rests on `target` lies from it.
spec fn is_far(g: GraphView, target: Seq<char>, far: Map<Seq<char>, u32>) -> bool {
    &&& forall|y: Seq<char>| #[trigger] far.contains_key(y) <==> rests_on(g, target, y)
    &&& forall|y: Seq<char>| #[trigger]
        far.contains_key(y) ==> is_distance(g, target, y, far[y] as nat)
}

fn find_nearer<'a>(
    ids: &'a Vec<String>,
    far: &StringHashMap<u32>,
    n: u32,
    Ghost(g): Ghost<GraphView>,
    Ghost(target): Ghost<Seq<char>>,
) -> (r: Option<&'a String>)
    requires
        is_far(g, target, far@),
    ensures
        match r {
            Some(y) => nearer(g, target, views(ids@), n as nat, 0) == Some(y@),
            None => nearer(g, target, views(ids@), n as nat, 0) is None,
        },
{
    let ghost all = views(ids@);
    for i in 0..ids.len()
        invariant
            all == views(ids@),
            is_far(g, target, far@),
            nearer(g, target, all, n as nat, 0) == nearer(g, target, all, n as nat, i as int),
    {
        assert(all[i as int] == ids@[i as int]@);
        if let Some(d) = far.get(ids[i].as_str()) {
            proof {
                lemma_distance(g, target, all[i as int], *d as nat);
            }
            if *d == n {
                return Some(&ids[i]);
            }
        }
    }
    None
}

fn add_way(
    graph: &Graph,
    far: &StringHashMap<u32>,
    id: &str,
    n: u32,
    out: &mut Vec<WhyEntry>,
    Ghost(target): Ghost<Seq<char>>,
)
    requires
        has_statuses(graph@),
        is_far(graph@, target, far@),
    ensures
        views(final(out)@) == views(old(out)@) + way(graph@, target, id@, n as nat),
{
    let ghost g = graph@;
    let ghost all = views(out@) + way(g, target, id@, n as nat);
    let mut at = id.to_string();
    let mut left: u32 = n;
    while left > 0
        invariant
            g == graph@,
            has_statuses(g),
            is_far(g, target, far@),
            all == views(old(out)@) + way(g, target, id@, n as nat),
            views(out@) + way(g, target, at@, left as nat) == all,
        decreases left,
    {
        let ghost before = views(out@);
        match graph.get(at.as_str()) {
            Some(Record::Force(f)) => {
                match find_nearer(&f.depends_on, far, left - 1, Ghost(g), Ghost(target)) {
                    Some(next) => {
                        add_via(graph, next.as_str(), at.as_str(), out);
                        let ghost rest = way(g, target, next@, (left - 1) as nat);
                        assert(before + (via_entry(g, next@, at@) + rest) =~= before + via_entry(
                            g,
                            next@,
                            at@,
                        ) + rest);
                        at = next.clone();
                        left = left - 1;
                    },
                    None => {
                        assert(before + Seq::<WhyEntryView>::empty() =~= before);
                        return ;
                    },
                }
            },
            _ => {
                assert(before + Seq::<WhyEntryView>::empty() =~= before);
                return ;
            },
        }
    }
    assert(views(out@) + Seq::<WhyEntryView>::empty() =~= views(out@));
}

fn add_cite(
    graph: &Graph,
    far: &StringHashMap<u32>,
    f: &Force,
    target: &str,
    out: &mut Vec<WhyEntry>,
)
    requires
        has_statuses(graph@),
        is_far(graph@, target@, far@),
        f@.status_log.len() > 0,
    ensures
        views(final(out)@) == views(old(out)@) + cite_entries(graph@, f@, target@),
{
    let ghost g = graph@;
    let ghost first = views(out@);
    let entry = make_why_entry(f, "direct".to_string());
    out.push(entry);
    assert(views(out@) =~= first + seq![entry@]);
    let ghost head = seq![entry@];
    if holds_text(&f.depends_on, target) {
        add_via(graph, target, f.id.as_str(), out);
        assert(first + (head + via_entry(g, target@, f@.id)) =~= first + head + via_entry(
            g,
            target@,
            f@.id,
        ));
    } else {
        match far.get(f.id.as_str()) {
            Some(d) => {
                proof {
                    lemma_distance(g, target@, f@.id, *d as nat);
                }
                add_way(graph, far, f.id.as_str(), *d, out, Ghost(target@));
                let ghost rest = way(g, target@, f@.id, *d as nat);
                assert(first + (head + rest) =~= first + head + rest);
            },
            None => {
                assert(head + Seq::<WhyEntryView>::empty() =~= head);
            },
        }
    }
}

fn add_cites(graph: &Graph, cites: &Vec<String>, target: &str, out: &mut Vec<WhyEntry>)
    requires
        has_statuses(graph@),
        graph@.forces.len() + graph@.decisions.len() <= u32::MAX,
        force_ids(graph@.forces).contains(target@),
    ensures
        views(final(out)@) == views(old(out)@) + cites_entries(graph@, views(cites@), target@),
{
    let ghost g = graph@;
    let ghost all = views(cites@);
    let ghost first = views(out@);
    let far = distances(graph, target);
    assert(first + cites_entries(g, all.take(0), target@) =~= first);
    for i in 0..cites.len()
        invariant
            g == graph@,
            has_statuses(g),
            is_far(g, target@, far@),
            all == views(cites@),
            views(out@) == first + cites_entries(g, all.take(i as int), target@),
    {
        let ghost found = cites_entries(g, all.take(i as int), target@);
        proof {
            assert(all.take(i + 1).drop_last() =~= all.take(i as int));
            assert(all.take(i + 1).last() == cites@[i as int]@);
        }
        if let Some(Record::Force(f)) = graph.get(cites[i].as_str()) {
            proof {
                lemma_found_force(g, cites@[i as int]@, f@);
            }
            add_cite(graph, &far, f, target, out);
            assert(first + (found + cite_entries(g, f@, target@)) =~= first + found + cite_entries(
                g,
                f@,
                target@,
            ));
        }
    }
    assert(all.take(all.len() as int) =~= all);
}

fn add_entries(graph: &Graph, id: &str, fallen: &Vec<FallenPremise>, out: &mut Vec<StaleEntry>)
    ensures
        views(final(out)@) == views(old(out)@) + views(fallen@).map_values(
            |p: FallenPremiseView| stale_entry(graph@, id@, p),
        ),
{
    let ghost g = graph@;
    let ghost all = views(fallen@).map_values(|p: FallenPremiseView| stale_entry(g, id@, p));
    let ghost first = views(out@);
    assert(first + all.take(0) =~= first);
    for i in 0..fallen.len()
        invariant
            g == graph@,
            all == views(fallen@).map_values(|p: FallenPremiseView| stale_entry(g, id@, p)),
            views(out@) == first + all.take(i as int),
    {
        let ghost before = views(out@);
        let p = &fallen[i];
        let entry = StaleEntry {
            decision_id: id.to_string(),
            decision_title: find_title(graph, id),
            fallen_force_id: p.force_id.clone(),
            fallen_status: force_status_name(p.status).to_string(),
            distance: p.distance,
            since: p.since.clone(),
        };
        out.push(entry);
        proof {
            assert(views(fallen@)[i as int] == p@);
            assert(entry@ == all[i as int]);
            assert(views(out@) =~= before.push(entry@));
            assert(first + all.take(i + 1) =~= before.push(entry@));
        }
    }
    assert(all.take(all.len() as int) =~= all);
}

fn find_title(graph: &Graph, id: &str) -> (r: String)
    ensures
        r@ == title_of(graph@, id@),
{
    match graph.get(id) {
        Some(Record::Decision(d)) => d.title.clone(),
        Some(Record::Force(f)) => f.title.clone(),
        None => String::new(),
    }
}

impl Snapshot {
    /// The stale decisions of the present, one entry for each fallen force
    /// that a decision rests on: retired forces first, then the nearest, then
    /// the latest fall.
    pub fn stale_report(&self) -> (r: Vec<StaleEntry>)
        ensures
            views(r@) == sorted::<StaleEntry>(entries_among(self@, self@.verdicts.frontier)),
    {
        let ghost s = self@;
        let ids = &self.verdicts.frontier;
        let ghost all = views(ids@);
        let mut entries: Vec<StaleEntry> = Vec::new();
        assert(views(entries@) =~= entries_among(s, all.take(0)));
        for i in 0..ids.len()
            invariant
                s == self@,
                ids == &self.verdicts.frontier,
                all == views(ids@),
                views(entries@) == entries_among(s, all.take(i as int)),
        {
            let ghost before = views(entries@);
            let id = &ids[i];
            proof {
                assert(all.take(i + 1).drop_last() =~= all.take(i as int));
                assert(all.take(i + 1).last() == id@);
            }
            match self.verdicts.premise.get(id.as_str()) {
                Some(PremiseVerdict::Stale { fallen }) => {
                    assert(s.verdicts.premise[id@] == self.verdicts.premise@[id@]@);
                    add_entries(&self.graph, id.as_str(), fallen, &mut entries);
                },
                Some(PremiseVerdict::Fresh) => {
                    assert(s.verdicts.premise[id@] == self.verdicts.premise@[id@]@);
                    assert(before + Seq::<StaleEntryView>::empty() =~= before);
                },
                None => {
                    assert(before + Seq::<StaleEntryView>::empty() =~= before);
                },
            }
        }
        assert(all.take(all.len() as int) =~= all);
        sort(entries)
    }

    /// Why a decision is stale: the way from what it cites to each force that
    /// fell. Nothing where no decision has the id.
    pub fn why(&self, id: &str) -> (r: Option<Vec<WhyEntry>>)
        requires
            self@.sound(),
        ensures
            match r {
                Some(entries) => why_of(self@, id@) == Some(views(entries@)),
                None => why_of(self@, id@) is None,
            },
    {
        let ghost s = self@;
        let ghost g = self@.graph;
        let mut out: Vec<WhyEntry> = Vec::new();
        assert(views(out@) =~= Seq::empty());
        match self.verdicts.premise.get(id) {
            None => None,
            Some(PremiseVerdict::Fresh) => {
                assert(s.verdicts.premise[id@] == self.verdicts.premise@[id@]@);
                Some(out)
            },
            Some(PremiseVerdict::Stale { fallen }) => {
                let ghost all = views(fallen@);
                proof {
                    assert(s.verdicts.premise[id@] == self.verdicts.premise@[id@]@);
                    assert(judged(g).premise[id@] == verdict_on(g, id@));
                }
                assert(views(out@) =~= fallen_entries(g, id@, all.take(0)));
                for i in 0..fallen.len()
                    invariant
                        s == self@,
                        s.sound(),
                        g == self@.graph,
                        all == views(fallen@),
                        verdict_on(g, id@) == (PremiseVerdictView::Stale { fallen: all }),
                        views(out@) == fallen_entries(g, id@, all.take(i as int)),
                {
                    let ghost before = views(out@);
                    let target = fallen[i].force_id.as_str();
                    proof {
                        assert(all.take(i + 1).drop_last() =~= all.take(i as int));
                        assert(all.take(i + 1).last() == fallen@[i as int]@);
                        assert(all[i as int] == fallen@[i as int]@);
                        law_fallen_premises_are_exact(g, id@, all[i as int]);
                        assert(all.contains(all[i as int]));
                        let k = choose|k: int|
                            0 <= k < g.forces.len() && #[trigger] fells(g, k, id@) && all[i as int]
                                == fall_of(g, k, id@);
                        assert(force_ids(g.forces)[k] == target@);
                    }
                    if let Some(Record::Decision(d)) = self.graph.get(id) {
                        add_cites(&self.graph, &d.cites, target, &mut out);
                    }
                }
                assert(all.take(all.len() as int) =~= all);
                Some(out)
            },
        }
    }

    /// The decisions that are not superseded, in order.
    pub fn frontier(&self) -> (r: &Vec<String>)
        ensures
            views(r@) == self@.verdicts.frontier,
    {
        &self.verdicts.frontier
    }

    /// The title of the record with the given id; nothing where there is none.
    pub fn get_title(&self, id: &str) -> (r: String)
        ensures
            r@ == title_of(self@.graph, id@),
    {
        find_title(&self.graph, id)
    }
}

/// Whether nothing that `id` rests on, nor `id` itself, refers to a decision as
/// to a force.
pub open spec fn rests_on_forces_alone(g: GraphView, id: Seq<char>) -> bool {
    forall|i: int, x: Seq<char>|
        0 <= i < g.decisions.len() && rests_on(g, x, id) ==> !#[trigger] bears(
            g,
            (#[trigger] g.decisions[i]).id,
            x,
        )
}

/// What something rests on directly is also under all that rests on it.
proof fn lemma_rests_further(g: GraphView, z: Seq<char>, x: Seq<char>, y: Seq<char>, n: nat)
    requires
        bears(g, z, x),
        rests(g, x, y, n),
    ensures
        rests(g, z, y, n + 1),
    decreases n,
{
    if n == 0 {
        assert(rests(g, z, z, 0));
    } else {
        let w = choose|w: Seq<char>| rests(g, x, w, (n - 1) as nat) && #[trigger] bears(g, w, y);
        lemma_rests_further(g, z, x, w, (n - 1) as nat);
    }
}

proof fn lemma_rests_on_further(g: GraphView, z: Seq<char>, x: Seq<char>, y: Seq<char>)
    requires
        bears(g, z, x),
        rests_on(g, x, y),
    ensures
        rests_on(g, z, y),
{
    let n = choose|n: nat| rests(g, x, y, n);
    lemma_rests_further(g, z, x, y, n);
}

proof fn lemma_force_found(g: GraphView, k: int)
    requires
        distinct_ids(g),
        0 <= k < g.forces.len(),
    ensures
        g.lookup(g.forces[k].id) == Some(RecordView::Force(g.forces[k])),
{
    assert(g.records()[g.decisions.len() + k] == RecordView::Force(g.forces[k]));
    law_lookup_finds(g, g.decisions.len() + k);
}

/// What bears something else, and rests on a force, is a force.
proof fn lemma_bearer_is_force(
    g: GraphView,
    top: Seq<char>,
    target: Seq<char>,
    z: Seq<char>,
    y: Seq<char>,
)
    requires
        distinct_ids(g),
        rests_on_forces_alone(g, top),
        rests_on(g, y, top),
        force_ids(g.forces).contains(target),
        rests_on(g, target, z),
        bears(g, z, y),
    ensures
        g.lookup(z) is Some,
        g.lookup(z)->0 is Force,
{
    let n = choose|n: nat| rests(g, target, z, n);
    if n == 0 {
        let k = choose|k: int| 0 <= k < g.forces.len() && force_ids(g.forces)[k] == target;
        lemma_force_found(g, k);
    } else {
        let w = choose|w: Seq<char>| rests(g, target, w, (n - 1) as nat) && #[trigger] bears(g, w, z);
        if exists|i: int|
            0 <= i < g.forces.len() && (#[trigger] g.forces[i]).id == z
                && g.forces[i].depends_on.contains(w) {
            let k = choose|i: int|
                0 <= i < g.forces.len() && (#[trigger] g.forces[i]).id == z
                    && g.forces[i].depends_on.contains(w);
            lemma_force_found(g, k);
        } else {
            let k = choose|i: int|
                0 <= i < g.decisions.len() && (#[trigger] g.decisions[i]).id == z
                    && g.decisions[i].cites.contains(w);
            assert(!bears(g, g.decisions[k].id, y));
        }
    }
}

/// What lies some steps from a target rests directly on something that lies
/// one step less from it.
proof fn lemma_step_back(g: GraphView, target: Seq<char>, y: Seq<char>, n: nat) -> (z: Seq<char>)
    requires
        is_distance(g, target, y, n),
        n > 0,
    ensures
        is_distance(g, target, z, (n - 1) as nat),
        bears(g, z, y),
{
    let z = choose|z: Seq<char>| rests(g, target, z, (n - 1) as nat) && #[trigger] bears(g, z, y);
    law_distance_is_least(g, target, z);
    let m = distance(g, target, z);
    if m < n - 1 {
        assert(rests(g, target, y, m + 1));
    }
    if m > n - 1 {
        assert(!rests(g, target, z, (n - 1) as nat));
    }
    z
}

proof fn lemma_nearer(
    g: GraphView,
    target: Seq<char>,
    ids: Seq<Seq<char>>,
    n: nat,
    i: int,
    k: int,
)
    requires
        0 <= i <= k < ids.len(),
        is_distance(g, target, ids[k], n),
    ensures
        nearer(g, target, ids, n, i) is Some,
        ids.contains(nearer(g, target, ids, n, i)->0),
        rests_on(g, target, nearer(g, target, ids, n, i)->0),
        distance(g, target, nearer(g, target, ids, n, i)->0) == n,
    decreases k - i,
{
    lemma_distance(g, target, ids[k], n);
    if rests_on(g, target, ids[i]) && distance(g, target, ids[i]) == n {
        assert(ids.contains(ids[i]));
    } else {
        lemma_nearer(g, target, ids, n, i + 1, k);
    }
}

/// Whether one of the reports is on the given force.
pub open spec fn tells_of(entries: Seq<WhyEntryView>, id: Seq<char>) -> bool {
    exists|i: int| 0 <= i < entries.len() && (#[trigger] entries[i]).force_id == id
}

proof fn lemma_tells_sum(a: Seq<WhyEntryView>, b: Seq<WhyEntryView>, id: Seq<char>)
    requires
        tells_of(a, id) || tells_of(b, id),
    ensures
        tells_of(a + b, id),
{
    if tells_of(a, id) {
        let i = choose|i: int| 0 <= i < a.len() && (#[trigger] a[i]).force_id == id;
        assert((a + b)[i].force_id == id);
    } else {
        let i = choose|i: int| 0 <= i < b.len() && (#[trigger] b[i]).force_id == id;
        assert((a + b)[a.len() + i].force_id == id);
    }
}

proof fn lemma_way_arrives(
    g: GraphView,
    top: Seq<char>,
    target: Seq<char>,
    id: Seq<char>,
    n: nat,
)
    requires
        distinct_ids(g),
        rests_on_forces_alone(g, top),
        rests_on(g, id, top),
        force_ids(g.forces).contains(target),
        n > 0,
        is_distance(g, target, id, n),
        g.lookup(id) is Some,
        g.lookup(id)->0 is Force,
    ensures
        tells_of(way(g, target, id, n), target),
    decreases n,
{
    let f = g.lookup(id)->0->Force_0;
    lemma_found_force(g, id, f);
    let z = lemma_step_back(g, target, id, n);
    assert(f.depends_on.contains(z)) by {
        let j = choose|j: int| 0 <= j < g.forces.len() && g.forces[j] == f;
        assert(g.records()[g.decisions.len() + j] == RecordView::Force(f));
        if exists|i: int|
            0 <= i < g.forces.len() && (#[trigger] g.forces[i]).id == id
                && g.forces[i].depends_on.contains(z) {
            let i = choose|i: int|
                0 <= i < g.forces.len() && (#[trigger] g.forces[i]).id == id
                    && g.forces[i].depends_on.contains(z);
            assert(g.records()[g.decisions.len() + i] == RecordView::Force(g.forces[i]));
            assert(i == j);
        } else {
            let i = choose|i: int|
                0 <= i < g.decisions.len() && (#[trigger] g.decisions[i]).id == id
                    && g.decisions[i].cites.contains(z);
            assert(g.records()[i] == RecordView::Decision(g.decisions[i]));
        }
    }
    let k = choose|k: int| 0 <= k < f.depends_on.len() && f.depends_on[k] == z;
    lemma_nearer(g, target, f.depends_on, (n - 1) as nat, 0, k);
    let next = nearer(g, target, f.depends_on, (n - 1) as nat, 0)->0;
    law_distance_is_least(g, target, next);
    let j = choose|j: int| 0 <= j < g.forces.len() && g.forces[j] == f;
    assert(g.forces[j].id == id && g.forces[j].depends_on.contains(next));
    assert(bears(g, next, id));
    lemma_bearer_is_force(g, top, target, next, id);
    lemma_rests_on_further(g, next, id, top);
    let nf = g.lookup(next)->0->Force_0;
    lemma_found_force(g, next, nf);
    let head = via_entry(g, next, id);
    let rest = way(g, target, next, (n - 1) as nat);
    if n == 1 {
        assert(next == target);
        assert(head[0].force_id == target);
        assert(tells_of(head, target));
    } else {
        lemma_way_arrives(g, top, target, next, (n - 1) as nat);
    }
    lemma_tells_sum(head, rest, target);
}

proof fn lemma_cites_arrive(
    g: GraphView,
    top: Seq<char>,
    cites: Seq<Seq<char>>,
    target: Seq<char>,
    k: int,
)
    requires
        distinct_ids(g),
        rests_on_forces_alone(g, top),
        force_ids(g.forces).contains(target),
        0 <= k < cites.len(),
        rests_on(g, cites[k], top),
        rests_on(g, target, cites[k]),
        g.lookup(cites[k]) is Some,
        g.lookup(cites[k])->0 is Force,
    ensures
        tells_of(cites_entries(g, cites, target), target),
    decreases cites.len(),
{
    let t = cites.drop_last();
    let before = cites_entries(g, t, target);
    if k < t.len() {
        lemma_cites_arrive(g, top, t, target, k);
        if let Some(RecordView::Force(f)) = g.lookup(cites.last()) {
            lemma_tells_sum(before, cite_entries(g, f, target), target);
        }
    } else {
        let f = g.lookup(cites[k])->0->Force_0;
        lemma_found_force(g, cites[k], f);
        law_distance_is_least(g, target, f.id);
        let head = seq![why_entry(f, "direct"@)];
        let n = distance(g, target, f.id);
        if n == 0 {
            assert(head[0].force_id == target);
            assert(tells_of(head, target));
        }
        if f.depends_on.contains(target) {
            let j = choose|j: int| 0 <= j < g.forces.len() && force_ids(g.forces)[j] == target;
            lemma_force_found(g, j);
            assert(via_entry(g, target, f.id)[0].force_id == target);
            assert(tells_of(via_entry(g, target, f.id), target));
            lemma_tells_sum(head, via_entry(g, target, f.id), target);
        } else {
            if n > 0 {
                lemma_way_arrives(g, top, target, f.id, n);
            }
            lemma_tells_sum(head, way(g, target, f.id, n), target);
        }
        lemma_tells_sum(before, cite_entries(g, f, target), target);
    }
}

/// The explanation of a stale decision leads to every force that fell, as long
/// as nothing that the decision rests on refers to a decision as to a force.
pub proof fn law_why_leads_to_every_fallen_force(s: SnapshotView, id: Seq<char>, p: FallenPremiseView)
    requires
        s.sound(),
        rests_on_forces_alone(s.graph, id),
        s.verdicts.premise.contains_key(id),
        s.verdicts.premise[id] is Stale,
        s.verdicts.premise[id]->fallen.contains(p),
    ensures
        why_of(s, id) is Some,
        tells_of(why_of(s, id)->0, p.force_id),
{
    let g = s.graph;
    assert(verdict_on(g, id) is Stale);
    let fallen = verdict_on(g, id)->fallen;
    law_fallen_premises_are_exact(g, id, p);
    let k = choose|k: int|
        0 <= k < g.forces.len() && #[trigger] fells(g, k, id) && p == fall_of(g, k, id);
    let target = p.force_id;
    assert(force_ids(g.forces)[k] == target);
    let d = g.lookup(id)->0->Decision_0;
    law_lookup(g, id);
    law_distance_is_least(g, target, id);
    let n = distance(g, target, id);
    lemma_force_found(g, k);
    let z = lemma_step_back(g, target, id, n);
    assert(d.cites.contains(z)) by {
        let j = choose|j: int| 0 <= j < g.records().len() && g.records()[j] == RecordView::Decision(d);
        assert(j < g.decisions.len());
        if exists|i: int|
            0 <= i < g.forces.len() && (#[trigger] g.forces[i]).id == id
                && g.forces[i].depends_on.contains(z) {
            let i = choose|i: int|
                0 <= i < g.forces.len() && (#[trigger] g.forces[i]).id == id
                    && g.forces[i].depends_on.contains(z);
            assert(g.records()[g.decisions.len() + i] == RecordView::Force(g.forces[i]));
        } else {
            let i = choose|i: int|
                0 <= i < g.decisions.len() && (#[trigger] g.decisions[i]).id == id
                    && g.decisions[i].cites.contains(z);
            assert(g.records()[i] == RecordView::Decision(g.decisions[i]));
            assert(i == j);
        }
    }
    assert(rests_on(g, target, z));
    assert(rests(g, id, id, 0));
    lemma_bearer_is_force(g, id, target, z, id);
    lemma_rests_on_further(g, z, id, id);
    let c = choose|c: int| 0 <= c < d.cites.len() && d.cites[c] == z;
    lemma_cites_arrive(g, id, d.cites, target, c);
    let m = choose|m: int| 0 <= m < fallen.len() && fallen[m] == p;
    lemma_fallen_tell(g, id, fallen, m);
}

proof fn lemma_fallen_tell(g: GraphView, id: Seq<char>, fallen: Seq<FallenPremiseView>, m: int)
    requires
        0 <= m < fallen.len(),
        g.lookup(id) is Some,
        g.lookup(id)->0 is Decision,
        tells_of(
            cites_entries(g, g.lookup(id)->0->Decision_0.cites, fallen[m].force_id),
            fallen[m].force_id,
        ),
    ensures
        tells_of(fallen_entries(g, id, fallen), fallen[m].force_id),
    decreases fallen.len(),
{
    let t = fallen.drop_last();
    let d = g.lookup(id)->0->Decision_0;
    let last = cites_entries(g, d.cites, fallen.last().force_id);
    if m < t.len() {
        lemma_fallen_tell(g, id, t, m);
    }
    lemma_tells_sum(fallen_entries(g, id, t), last, fallen[m].force_id);
}

proof fn lemma_entries_among(s: SnapshotView, ids: Seq<Seq<char>>, e: StaleEntryView)
    ensures
        entries_among(s, ids).contains(e) <==> exists|i: int|
            0 <= i < ids.len() && entries_for(s, #[trigger] ids[i]).contains(e),
    decreases ids.len(),
{
    if ids.len() > 0 {
        let t = ids.drop_last();
        lemma_entries_among(s, t, e);
        lemma_sum_contains(entries_among(s, t), entries_for(s, ids.last()));
        if entries_among(s, t).contains(e) {
            let i = choose|i: int| 0 <= i < t.len() && entries_for(s, #[trigger] t[i]).contains(e);
            assert(entries_for(s, ids[i]).contains(e));
        }
        if exists|i: int| 0 <= i < ids.len() && entries_for(s, #[trigger] ids[i]).contains(e) {
            let i = choose|i: int|
                0 <= i < ids.len() && entries_for(s, #[trigger] ids[i]).contains(e);
            if i < t.len() {
                assert(entries_for(s, t[i]).contains(e));
            }
        }
    }
}

/// The stale report holds exactly the falls that decisions of the frontier
/// rest on, and it is in order.
pub proof fn law_stale_report_is_of_the_frontier(s: SnapshotView, e: StaleEntryView)
    requires
        s.sound(),
    ensures
        sorted::<StaleEntry>(entries_among(s, s.verdicts.frontier)).contains(e) <==> exists|k: int|
            0 <= k < s.graph.forces.len() && s.verdicts.frontier.contains(e.decision_id)
                && #[trigger] fells(s.graph, k, e.decision_id) && e == stale_entry(
                s.graph,
                e.decision_id,
                fall_of(s.graph, k, e.decision_id),
            ),
        in_order::<StaleEntry>(sorted::<StaleEntry>(entries_among(s, s.verdicts.frontier))),
{
    let g = s.graph;
    let frontier = s.verdicts.frontier;
    lemma_sorted_contains::<StaleEntry>(entries_among(s, frontier), e);
    law_sorted_in_order::<StaleEntry>(entries_among(s, frontier));
    lemma_entries_among(s, frontier, e);
    law_frontier_is_the_present(g);
    assert forall|id: Seq<char>| frontier.contains(id) implies entries_for(s, id).contains(e)
        <==> e.decision_id == id && exists|k: int|
        0 <= k < g.forces.len() && #[trigger] fells(g, k, id) && e == stale_entry(
            g,
            id,
            fall_of(g, k, id),
        ) by {
        assert(s.verdicts.premise[id] == verdict_on(g, id));
        if verdict_on(g, id) is Stale {
            let fallen = verdict_on(g, id)->fallen;
            if entries_for(s, id).contains(e) {
                let i = choose|i: int| 0 <= i < fallen.len() && entries_for(s, id)[i] == e;
                law_fallen_premises_are_exact(g, id, fallen[i]);
                assert(fallen.contains(fallen[i]));
            }
            if exists|k: int|
                0 <= k < g.forces.len() && #[trigger] fells(g, k, id) && e == stale_entry(
                    g,
                    id,
                    fall_of(g, k, id),
                ) {
                let k = choose|k: int|
                    0 <= k < g.forces.len() && #[trigger] fells(g, k, id) && e == stale_entry(
                        g,
                        id,
                        fall_of(g, k, id),
                    );
                law_fallen_premises_are_exact(g, id, fall_of(g, k, id));
                let i = choose|i: int| 0 <= i < fallen.len() && fallen[i] == fall_of(g, k, id);
                assert(entries_for(s, id)[i] == e);
            }
        } else {
            law_stale_iff_rests_on_fallen(g, id);
        }
    }
    if exists|i: int| 0 <= i < frontier.len() && entries_for(s, #[trigger] frontier[i]).contains(e) {
        let i = choose|i: int|
            0 <= i < frontier.len() && entries_for(s, #[trigger] frontier[i]).contains(e);
        assert(frontier.contains(frontier[i]));
    }
    if frontier.contains(e.decision_id) && entries_for(s, e.decision_id).contains(e) {
        let i = choose|i: int| 0 <= i < frontier.len() && frontier[i] == e.decision_id;
        assert(entries_for(s, frontier[i]).contains(e));
    }
}

/// What a report on a force says of it.
pub open spec fn is_told(f: ForceView, e: WhyEntryView) -> bool {
    &&& e.force_id == f.id
    &&& e.force_title == f.title
    &&& e.current_status == match f.status_log.last().status {
        ForceStatus::Holds => "holds"@,
        ForceStatus::Changed => "changed"@,
        ForceStatus::Retired => "retired"@,
    }
}

/// Whether a report starts a way: it is on a force that the decision cites.
pub open spec fn is_start(g: GraphView, d: DecisionView, e: WhyEntryView) -> bool {
    &&& e.path == "direct"@
    &&& d.cites.contains(e.force_id)
    &&& exists|k: int| 0 <= k < g.forces.len() && is_told(#[trigger] g.forces[k], e)
}

/// Whether a report goes on from the force `from`: it is on a force that this
/// one depends on.
pub open spec fn is_step(g: GraphView, from: Seq<char>, e: WhyEntryView) -> bool {
    &&& e.path == "via "@ + from
    &&& exists|k: int| 0 <= k < g.forces.len() && is_told(#[trigger] g.forces[k], e)
    &&& exists|k: int|
        0 <= k < g.forces.len() && (#[trigger] g.forces[k]).id == from
            && g.forces[k].depends_on.contains(e.force_id)
}

/// Whether each of some reports starts a way or goes on from the one before it.
pub open spec fn are_ways(g: GraphView, d: DecisionView, es: Seq<WhyEntryView>) -> bool {
    forall|m: int|
        0 <= m < es.len() ==> is_start(g, d, #[trigger] es[m]) || (m > 0 && is_step(
            g,
            es[m - 1].force_id,
            es[m],
        ))
}

/// Whether the reports from `m` to `n` are one way, from a force that the
/// decision cites to another.
pub open spec fn is_way(
    g: GraphView,
    d: DecisionView,
    es: Seq<WhyEntryView>,
    m: int,
    n: int,
    from: Seq<char>,
    to: Seq<char>,
) -> bool {
    &&& 0 <= m <= n < es.len()
    &&& is_start(g, d, es[m])
    &&& es[m].force_id == from
    &&& es[n].force_id == to
    &&& forall|j: int| m < j <= n ==> is_step(g, es[j - 1].force_id, #[trigger] es[j])
}

proof fn lemma_told(g: GraphView, id: Seq<char>, f: ForceView, path: Seq<char>)
    requires
        g.lookup(id) == Some(RecordView::Force(f)),
    ensures
        exists|k: int| 0 <= k < g.forces.len() && is_told(#[trigger] g.forces[k], why_entry(f, path)),
        f.id == id,
{
    lemma_found_force(g, id, f);
    let k = choose|k: int| 0 <= k < g.forces.len() && g.forces[k] == f;
    assert(is_told(g.forces[k], why_entry(f, path)));
}

proof fn lemma_nearer_is_named(
    g: GraphView,
    target: Seq<char>,
    ids: Seq<Seq<char>>,
    n: nat,
    i: int,
)
    requires
        0 <= i,
        nearer(g, target, ids, n, i) is Some,
    ensures
        ids.contains(nearer(g, target, ids, n, i)->0),
    decreases ids.len() - i,
{
    if i < ids.len() {
        if rests_on(g, target, ids[i]) && distance(g, target, ids[i]) == n {
            assert(ids.contains(ids[i]));
        } else {
            lemma_nearer_is_named(g, target, ids, n, i + 1);
        }
    }
}

/// The force from which the report at `j` of a way goes on.
spec fn before(es: Seq<WhyEntryView>, first: Seq<char>, j: int) -> Seq<char> {
    if j == 0 {
        first
    } else {
        es[j - 1].force_id
    }
}

/// Whether some reports go on from a force, each from the one before it.
spec fn goes_on(g: GraphView, first: Seq<char>, es: Seq<WhyEntryView>) -> bool {
    forall|j: int| 0 <= j < es.len() ==> is_step(g, before(es, first, j), #[trigger] es[j])
}

proof fn lemma_via_is_step(g: GraphView, f: ForceView, next: Seq<char>)
    requires
        g.lookup(f.id) == Some(RecordView::Force(f)),
        f.depends_on.contains(next),
    ensures
        goes_on(g, f.id, via_entry(g, next, f.id)),
{
    let es = via_entry(g, next, f.id);
    if let Some(RecordView::Force(h)) = g.lookup(next) {
        lemma_told(g, next, h, "via "@ + f.id);
        lemma_found_force(g, f.id, f);
        let k = choose|k: int| 0 <= k < g.forces.len() && g.forces[k] == f;
        assert(g.forces[k].id == f.id && g.forces[k].depends_on.contains(h.id));
        assert(es[0] == why_entry(h, "via "@ + f.id));
        assert(is_step(g, f.id, es[0]));
    }
}

proof fn lemma_way_goes_on(g: GraphView, target: Seq<char>, id: Seq<char>, n: nat)
    ensures
        goes_on(g, id, way(g, target, id, n)),
    decreases n,
{
    if n > 0 {
        if let Some(RecordView::Force(f)) = g.lookup(id) {
            if let Some(next) = nearer(g, target, f.depends_on, (n - 1) as nat, 0) {
                lemma_found_force(g, id, f);
                lemma_nearer_is_named(g, target, f.depends_on, (n - 1) as nat, 0);
                lemma_via_is_step(g, f, next);
                lemma_way_goes_on(g, target, next, (n - 1) as nat);
                let a = via_entry(g, next, id);
                let b = way(g, target, next, (n - 1) as nat);
                let es = way(g, target, id, n);
                assert(es == a + b);
                if g.lookup(next) is Some && g.lookup(next)->0 is Force {
                    let h = g.lookup(next)->0->Force_0;
                    lemma_found_force(g, next, h);
                    assert(a.len() == 1 && a[0].force_id == next);
                } else {
                    assert(a.len() == 0);
                    assert(b.len() == 0);
                }
                assert forall|j: int| 0 <= j < es.len() implies is_step(
                    g,
                    before(es, id, j),
                    #[trigger] es[j],
                ) by {
                    if j == 0 {
                        assert(es[0] == a[0]);
                        assert(is_step(g, before(a, id, 0), a[0]));
                    } else {
                        assert(es[j] == b[j - 1]);
                        assert(is_step(g, before(b, next, j - 1), b[j - 1]));
                        if j == 1 {
                            assert(es[0] == a[0]);
                        } else {
                            assert(es[j - 1] == b[j - 2]);
                        }
                    }
                }
            }
        }
    }
}

/// The reports on one citation are one way, which goes on as far as it can.
proof fn lemma_cite_entries(g: GraphView, d: DecisionView, f: ForceView, target: Seq<char>)
    requires
        g.lookup(f.id) == Some(RecordView::Force(f)),
        d.cites.contains(f.id),
    ensures
        ({
            let es = cite_entries(g, f, target);
            &&& es.len() > 0
            &&& es[0].force_id == f.id
            &&& is_start(g, d, es[0])
            &&& forall|j: int|
                0 < j < es.len() ==> is_step(g, es[j - 1].force_id, #[trigger] es[j])
            &&& are_ways(g, d, es)
        }),
{
    let es = cite_entries(g, f, target);
    let head = seq![why_entry(f, "direct"@)];
    let rest = if f.depends_on.contains(target) {
        via_entry(g, target, f.id)
    } else if rests_on(g, target, f.id) {
        way(g, target, f.id, distance(g, target, f.id))
    } else {
        Seq::empty()
    };
    lemma_told(g, f.id, f, "direct"@);
    if f.depends_on.contains(target) {
        lemma_via_is_step(g, f, target);
    } else if rests_on(g, target, f.id) {
        lemma_way_goes_on(g, target, f.id, distance(g, target, f.id));
    }
    assert(goes_on(g, f.id, rest));
    assert(es == head + rest);
    assert(es[0] == head[0]);
    assert forall|j: int| 0 < j < es.len() implies is_step(g, es[j - 1].force_id, #[trigger] es[j]) by {
        assert(es[j] == rest[j - 1]);
        assert(is_step(g, before(rest, f.id, j - 1), rest[j - 1]));
        if j > 1 {
            assert(es[j - 1] == rest[j - 2]);
        }
    }
}

proof fn lemma_ways_sum(g: GraphView, d: DecisionView, a: Seq<WhyEntryView>, b: Seq<WhyEntryView>)
    requires
        are_ways(g, d, a),
        are_ways(g, d, b),
    ensures
        are_ways(g, d, a + b),
{
    let es = a + b;
    assert forall|m: int| 0 <= m < es.len() implies is_start(g, d, #[trigger] es[m]) || (m > 0
        && is_step(g, es[m - 1].force_id, es[m])) by {
        if m < a.len() {
            assert(es[m] == a[m]);
            if m > 0 {
                assert(es[m - 1] == a[m - 1]);
            }
        } else {
            let j = m - a.len();
            assert(es[m] == b[j]);
            if j > 0 {
                assert(es[m - 1] == b[j - 1]);
            }
        }
    }
}

proof fn lemma_cites_are_ways(
    g: GraphView,
    d: DecisionView,
    cites: Seq<Seq<char>>,
    target: Seq<char>,
)
    requires
        forall|i: int| 0 <= i < cites.len() ==> d.cites.contains(#[trigger] cites[i]),
    ensures
        are_ways(g, d, cites_entries(g, cites, target)),
    decreases cites.len(),
{
    if cites.len() > 0 {
        let t = cites.drop_last();
        assert forall|i: int| 0 <= i < t.len() implies d.cites.contains(#[trigger] t[i]) by {
            assert(d.cites.contains(cites[i]));
        }
        lemma_cites_are_ways(g, d, t, target);
        if let Some(RecordView::Force(f)) = g.lookup(cites.last()) {
            lemma_found_force(g, cites.last(), f);
            assert(d.cites.contains(cites[cites.len() - 1]));
            lemma_cite_entries(g, d, f, target);
            lemma_ways_sum(g, d, cites_entries(g, t, target), cite_entries(g, f, target));
        }
    }
}

proof fn lemma_fallen_are_ways(
    g: GraphView,
    d: DecisionView,
    fallen: Seq<FallenPremiseView>,
)
    requires
        g.lookup(d.id) == Some(RecordView::Decision(d)),
    ensures
        are_ways(g, d, fallen_entries(g, d.id, fallen)),
    decreases fallen.len(),
{
    if fallen.len() > 0 {
        let t = fallen.drop_last();
        lemma_fallen_are_ways(g, d, t);
        let target = fallen.last().force_id;
        assert forall|i: int| 0 <= i < d.cites.len() implies d.cites.contains(
            #[trigger] d.cites[i],
        ) by {}
        lemma_cites_are_ways(g, d, d.cites, target);
        lemma_ways_sum(g, d, fallen_entries(g, d.id, t), cites_entries(g, d.cites, target));
    }
}

/// Why is asked of decisions, and of nothing else. What is told is made of ways:
/// each report is on a force, with its title and its last status, and is either
/// on one that the decision cites, or on one that the force of the report before
/// it depends on. Of a fresh decision nothing is told.
pub proof fn law_why_tells_of_ways(s: SnapshotView, id: Seq<char>)
    requires
        s.sound(),
    ensures
        why_of(s, id) is Some <==> exists|i: int|
            0 <= i < s.graph.decisions.len() && (#[trigger] s.graph.decisions[i]).id == id,
        forall|i: int|
            0 <= i < s.graph.decisions.len() && (#[trigger] s.graph.decisions[i]).id == id
                ==> are_ways(s.graph, s.graph.decisions[i], why_of(s, id)->0),
        why_of(s, id) is Some && s.verdicts.premise[id] is Fresh ==> why_of(s, id)->0.len() == 0,
{
    let g = s.graph;
    law_every_decision_is_judged(g, id);
    assert forall|i: int| 0 <= i < g.decisions.len() && (#[trigger] g.decisions[i]).id == id implies
        are_ways(g, g.decisions[i], why_of(s, id)->0) by {
        let d = g.decisions[i];
        assert(g.records()[i] == RecordView::Decision(d));
        law_lookup_finds(g, i);
        if s.verdicts.premise[id] is Stale {
            lemma_fallen_are_ways(g, d, s.verdicts.premise[id]->fallen);
        }
    }
}

proof fn lemma_way_in_sum(
    g: GraphView,
    d: DecisionView,
    a: Seq<WhyEntryView>,
    b: Seq<WhyEntryView>,
    m: int,
    n: int,
    from: Seq<char>,
    to: Seq<char>,
)
    requires
        is_way(g, d, b, m, n, from, to),
    ensures
        is_way(g, d, a + b, a.len() + m, a.len() + n, from, to),
{
    let es = a + b;
    let k = a.len() as int;
    assert(es[k + m] == b[m] && es[k + n] == b[n]);
    assert forall|j: int| k + m < j <= k + n implies is_step(
        g,
        es[j - 1].force_id,
        #[trigger] es[j],
    ) by {
        assert(es[j] == b[j - k]);
        assert(es[j - 1] == b[j - 1 - k]);
    }
}

proof fn lemma_way_before_more(
    g: GraphView,
    d: DecisionView,
    a: Seq<WhyEntryView>,
    b: Seq<WhyEntryView>,
    m: int,
    n: int,
    from: Seq<char>,
    to: Seq<char>,
)
    requires
        is_way(g, d, a, m, n, from, to),
    ensures
        is_way(g, d, a + b, m, n, from, to),
{
    let es = a + b;
    assert(es[m] == a[m] && es[n] == a[n]);
    assert forall|j: int| m < j <= n implies is_step(g, es[j - 1].force_id, #[trigger] es[j]) by {
        assert(es[j] == a[j]);
        assert(es[j - 1] == a[j - 1]);
    }
}

proof fn lemma_way_ends(
    g: GraphView,
    top: Seq<char>,
    target: Seq<char>,
    id: Seq<char>,
    n: nat,
)
    requires
        distinct_ids(g),
        rests_on_forces_alone(g, top),
        rests_on(g, id, top),
        force_ids(g.forces).contains(target),
        n > 0,
        is_distance(g, target, id, n),
        g.lookup(id) is Some,
        g.lookup(id)->0 is Force,
    ensures
        way(g, target, id, n).len() == n,
        way(g, target, id, n).last().force_id == target,
    decreases n,
{
    let f = g.lookup(id)->0->Force_0;
    lemma_found_force(g, id, f);
    let z = lemma_step_back(g, target, id, n);
    let j = choose|j: int| 0 <= j < g.forces.len() && g.forces[j] == f;
    assert(f.depends_on.contains(z)) by {
        assert(g.records()[g.decisions.len() + j] == RecordView::Force(f));
        if exists|i: int|
            0 <= i < g.forces.len() && (#[trigger] g.forces[i]).id == id
                && g.forces[i].depends_on.contains(z) {
            let i = choose|i: int|
                0 <= i < g.forces.len() && (#[trigger] g.forces[i]).id == id
                    && g.forces[i].depends_on.contains(z);
            assert(g.records()[g.decisions.len() + i] == RecordView::Force(g.forces[i]));
            assert(i == j);
        } else {
            let i = choose|i: int|
                0 <= i < g.decisions.len() && (#[trigger] g.decisions[i]).id == id
                    && g.decisions[i].cites.contains(z);
            assert(g.records()[i] == RecordView::Decision(g.decisions[i]));
        }
    }
    let k = choose|k: int| 0 <= k < f.depends_on.len() && f.depends_on[k] == z;
    lemma_nearer(g, target, f.depends_on, (n - 1) as nat, 0, k);
    let next = nearer(g, target, f.depends_on, (n - 1) as nat, 0)->0;
    law_distance_is_least(g, target, next);
    assert(g.forces[j].id == id && g.forces[j].depends_on.contains(next));
    assert(bears(g, next, id));
    lemma_bearer_is_force(g, top, target, next, id);
    lemma_rests_on_further(g, next, id, top);
    let nf = g.lookup(next)->0->Force_0;
    lemma_found_force(g, next, nf);
    let head = via_entry(g, next, id);
    let rest = way(g, target, next, (n - 1) as nat);
    assert(head.len() == 1 && head[0].force_id == next);
    assert(way(g, target, id, n) == head + rest);
    if n > 1 {
        lemma_way_ends(g, top, target, next, (n - 1) as nat);
        assert((head + rest).last() == rest.last());
    } else {
        assert(rest.len() == 0);
        assert((head + rest).last() == head[0]);
    }
}

/// The reports on a cited force that rests on a fallen one are the shortest way
/// to it.
proof fn lemma_cite_is_way(
    g: GraphView,
    d: DecisionView,
    f: ForceView,
    target: Seq<char>,
)
    requires
        distinct_ids(g),
        rests_on_forces_alone(g, d.id),
        rests_on(g, f.id, d.id),
        force_ids(g.forces).contains(target),
        rests_on(g, target, f.id),
        g.lookup(f.id) == Some(RecordView::Force(f)),
        d.cites.contains(f.id),
        target != f.id,
    ensures
        ({
            let es = cite_entries(g, f, target);
            &&& is_way(g, d, es, 0, es.len() - 1, f.id, target)
            &&& es.len() == distance(g, target, f.id) + 1
        }),
{
    let es = cite_entries(g, f, target);
    lemma_cite_entries(g, d, f, target);
    law_distance_is_least(g, target, f.id);
    let n = distance(g, target, f.id);
    if n == 0 {
        assert(rests(g, target, f.id, 0));
    }
    if f.depends_on.contains(target) {
        let j = choose|j: int| 0 <= j < g.forces.len() && force_ids(g.forces)[j] == target;
        lemma_force_found(g, j);
        assert(via_entry(g, target, f.id).len() == 1);
        assert(es[1] == via_entry(g, target, f.id)[0]);
        lemma_found_force(g, f.id, f);
        let k = choose|k: int| 0 <= k < g.forces.len() && g.forces[k] == f;
        assert(g.forces[k].id == f.id && g.forces[k].depends_on.contains(target));
        assert(bears(g, target, f.id));
        assert(rests(g, target, target, 0));
        assert(rests(g, target, f.id, 1));
        if n > 1 {
            assert(!rests(g, target, f.id, 1));
        }
    } else {
        lemma_way_ends(g, d.id, target, f.id, n);
        assert(es.last() == way(g, target, f.id, n).last());
    }
}

proof fn lemma_cites_hold_way(
    g: GraphView,
    d: DecisionView,
    cites: Seq<Seq<char>>,
    f: ForceView,
    target: Seq<char>,
    k: int,
) -> (mn: (int, int))
    requires
        distinct_ids(g),
        rests_on_forces_alone(g, d.id),
        rests_on(g, f.id, d.id),
        force_ids(g.forces).contains(target),
        rests_on(g, target, f.id),
        g.lookup(f.id) == Some(RecordView::Force(f)),
        d.cites.contains(f.id),
        target != f.id,
        0 <= k < cites.len(),
        cites[k] == f.id,
    ensures
        is_way(g, d, cites_entries(g, cites, target), mn.0, mn.1, f.id, target),
        mn.1 - mn.0 == distance(g, target, f.id),
    decreases cites.len(),
{
    let t = cites.drop_last();
    let first = cites_entries(g, t, target);
    if k < t.len() {
        let (m, n) = lemma_cites_hold_way(g, d, t, f, target, k);
        if let Some(RecordView::Force(h)) = g.lookup(cites.last()) {
            lemma_way_before_more(g, d, first, cite_entries(g, h, target), m, n, f.id, target);
        }
        (m, n)
    } else {
        let es = cite_entries(g, f, target);
        lemma_cite_is_way(g, d, f, target);
        lemma_way_in_sum(g, d, first, es, 0, es.len() - 1, f.id, target);
        (first.len() as int, first.len() + es.len() - 1)
    }
}

proof fn lemma_fallen_hold_way(
    g: GraphView,
    d: DecisionView,
    fallen: Seq<FallenPremiseView>,
    f: ForceView,
    i: int,
) -> (mn: (int, int))
    requires
        distinct_ids(g),
        rests_on_forces_alone(g, d.id),
        rests_on(g, f.id, d.id),
        0 <= i < fallen.len(),
        force_ids(g.forces).contains(fallen[i].force_id),
        rests_on(g, fallen[i].force_id, f.id),
        g.lookup(f.id) == Some(RecordView::Force(f)),
        g.lookup(d.id) == Some(RecordView::Decision(d)),
        d.cites.contains(f.id),
        fallen[i].force_id != f.id,
    ensures
        is_way(g, d, fallen_entries(g, d.id, fallen), mn.0, mn.1, f.id, fallen[i].force_id),
        mn.1 - mn.0 == distance(g, fallen[i].force_id, f.id),
    decreases fallen.len(),
{
    let t = fallen.drop_last();
    let target = fallen[i].force_id;
    let first = fallen_entries(g, d.id, t);
    let last = cites_entries(g, d.cites, fallen.last().force_id);
    if i < t.len() {
        let (m, n) = lemma_fallen_hold_way(g, d, t, f, i);
        lemma_way_before_more(g, d, first, last, m, n, f.id, target);
        (m, n)
    } else {
        let k = choose|k: int| 0 <= k < d.cites.len() && d.cites[k] == f.id;
        let (m, n) = lemma_cites_hold_way(g, d, d.cites, f, target, k);
        lemma_way_in_sum(g, d, first, last, m, n, f.id, target);
        (first.len() + m, first.len() + n)
    }
}

/// From every force that a decision cites, why tells a way to every fallen force
/// that this one rests on, and no shorter one exists.
pub proof fn law_why_tells_the_shortest_way_from_each_citation(
    s: SnapshotView,
    i: int,
    c: int,
    k: int,
)
    requires
        s.sound(),
        0 <= i < s.graph.decisions.len(),
        rests_on_forces_alone(s.graph, s.graph.decisions[i].id),
        0 <= c < s.graph.forces.len(),
        s.graph.decisions[i].cites.contains(s.graph.forces[c].id),
        0 <= k < s.graph.forces.len(),
        k != c,
        s.graph.forces[k].status_log.last().status != ForceStatus::Holds,
        exists|w: Seq<Seq<char>>|
            is_chain(s.graph, s.graph.forces[k].id, s.graph.forces[c].id, w),
    ensures
        ({
            let g = s.graph;
            let d = g.decisions[i];
            let why = why_of(s, d.id);
            &&& why is Some
            &&& exists|m: int, n: int|
                #![trigger is_way(g, d, why->0, m, n, g.forces[c].id, g.forces[k].id)]
                is_way(g, d, why->0, m, n, g.forces[c].id, g.forces[k].id) && forall|
                    w: Seq<Seq<char>>,
                | #[trigger]
                    is_chain(g, g.forces[k].id, g.forces[c].id, w) ==> w.len() > n - m
        }),
{
    let g = s.graph;
    let d = g.decisions[i];
    let f = g.forces[c];
    let h = g.forces[k];
    assert(g.records()[i] == RecordView::Decision(d));
    law_lookup_finds(g, i);
    lemma_force_found(g, c);
    lemma_force_found(g, k);
    law_every_decision_is_judged(g, d.id);
    let w = choose|w: Seq<Seq<char>>| is_chain(g, h.id, f.id, w);
    lemma_of_chain(g, h.id, f.id, w);
    let wd = w.push(d.id);
    assert(is_chain(g, h.id, d.id, wd)) by {
        assert forall|j: int| 0 <= j < wd.len() - 1 implies #[trigger] is_link(g, wd, j) by {
            if j < w.len() - 1 {
                assert(is_link(g, w, j));
            } else {
                assert(wd[j] == f.id);
                assert(names_as_premise(g, f.id, d.id));
            }
        }
    }
    law_stale_where_a_chain_leads_to_a_fallen_force(g, i, k);
    let v = s.verdicts.premise[d.id];
    let fallen = v->fallen;
    let q = choose|q: int| 0 <= q < fallen.len() && (#[trigger] fallen[q]).force_id == h.id;
    assert(bears(g, f.id, d.id));
    assert(rests(g, f.id, f.id, 0));
    assert(rests(g, f.id, d.id, 1));
    assert(rests_on(g, f.id, d.id));
    assert(force_ids(g.forces)[k] == h.id);
    assert(force_ids(g.forces).contains(h.id));
    if h.id == f.id {
        assert(g.records()[g.decisions.len() + k].id() == g.records()[g.decisions.len() + c].id());
    }
    let (m, n) = lemma_fallen_hold_way(g, d, fallen, f, q);
    law_distance_is_least(g, h.id, f.id);
    assert forall|x: Seq<Seq<char>>| #[trigger] is_chain(g, h.id, f.id, x) implies x.len() > n
        - m by {
        lemma_of_chain(g, h.id, f.id, x);
    }
    assert(is_way(g, d, why_of(s, d.id)->0, m, n, f.id, h.id));
}

proof fn lemma_entry_of_verdict(s: SnapshotView, i: int, m: int)
    requires
        s.sound(),
        0 <= i < s.graph.decisions.len(),
        s.verdicts.premise[s.graph.decisions[i].id] is Stale,
        0 <= m < s.verdicts.premise[s.graph.decisions[i].id]->fallen.len(),
        s.verdicts.frontier.contains(s.graph.decisions[i].id),
    ensures
        ({
            let d = s.graph.decisions[i];
            let p = s.verdicts.premise[d.id]->fallen[m];
            sorted::<StaleEntry>(entries_among(s, s.verdicts.frontier)).contains(
                stale_entry(s.graph, d.id, p),
            )
        }),
{
    let d = s.graph.decisions[i];
    let frontier = s.verdicts.frontier;
    let fallen = s.verdicts.premise[d.id]->fallen;
    let e = stale_entry(s.graph, d.id, fallen[m]);
    law_every_decision_is_judged(s.graph, d.id);
    assert(s.graph.decisions[i].id == d.id);
    assert(entries_for(s, d.id)[m] == e);
    let q = choose|q: int| 0 <= q < frontier.len() && frontier[q] == d.id;
    assert(entries_for(s, frontier[q]).contains(e));
    lemma_entries_among(s, frontier, e);
    lemma_sorted_contains::<StaleEntry>(entries_among(s, frontier), e);
}

proof fn lemma_verdict_of_entry(s: SnapshotView, e: StaleEntryView) -> (im: (int, int))
    requires
        s.sound(),
        sorted::<StaleEntry>(entries_among(s, s.verdicts.frontier)).contains(e),
    ensures
        0 <= im.0 < s.graph.decisions.len(),
        s.graph.decisions[im.0].id == e.decision_id,
        s.verdicts.frontier.contains(e.decision_id),
        s.verdicts.premise[e.decision_id] is Stale,
        0 <= im.1 < s.verdicts.premise[e.decision_id]->fallen.len(),
        e == stale_entry(
            s.graph,
            e.decision_id,
            s.verdicts.premise[e.decision_id]->fallen[im.1],
        ),
{
    let frontier = s.verdicts.frontier;
    lemma_sorted_contains::<StaleEntry>(entries_among(s, frontier), e);
    lemma_entries_among(s, frontier, e);
    let q = choose|q: int|
        0 <= q < frontier.len() && entries_for(s, #[trigger] frontier[q]).contains(e);
    let id = frontier[q];
    let es = entries_for(s, id);
    let m = choose|m: int| 0 <= m < es.len() && es[m] == e;
    law_every_decision_is_judged(s.graph, id);
    let i = choose|i: int|
        0 <= i < s.graph.decisions.len() && (#[trigger] s.graph.decisions[i]).id == id;
    (i, m)
}

/// The stale report tells of a decision and of a force exactly where the
/// decision is on the frontier, the last status of the force is changed or
/// retired, and a chain of references leads from the force to the decision. It
/// tells the title of the decision, that status, the day on which it was set,
/// and the length of the shortest chain.
pub proof fn law_stale_report_leaves_nothing_out(s: SnapshotView, i: int, k: int)
    requires
        s.sound(),
        0 <= i < s.graph.decisions.len(),
        0 <= k < s.graph.forces.len(),
    ensures
        ({
            let d = s.graph.decisions[i];
            let f = s.graph.forces[k];
            let last = f.status_log.last();
            let report = sorted::<StaleEntry>(entries_among(s, s.verdicts.frontier));
            &&& (exists|m: int|
                0 <= m < report.len() && (#[trigger] report[m]).decision_id == d.id
                    && report[m].fallen_force_id == f.id) <==> s.verdicts.frontier.contains(d.id)
                && last.status != ForceStatus::Holds && exists|w: Seq<Seq<char>>|
                is_chain(s.graph, f.id, d.id, w)
            &&& forall|m: int|
                0 <= m < report.len() && (#[trigger] report[m]).decision_id == d.id
                    && report[m].fallen_force_id == f.id ==> {
                    &&& report[m].decision_title == d.title
                    &&& report[m].fallen_status == (if last.status == ForceStatus::Retired {
                        "retired"@
                    } else {
                        "changed"@
                    })
                    &&& report[m].since == last.since
                    &&& exists|w: Seq<Seq<char>>| #[trigger]
                        is_chain(s.graph, f.id, d.id, w) && w.len() == report[m].distance + 1
                    &&& forall|w: Seq<Seq<char>>| #[trigger]
                        is_chain(s.graph, f.id, d.id, w) ==> w.len() >= report[m].distance + 1
                }
        }),
{
    let g = s.graph;
    let d = g.decisions[i];
    let f = g.forces[k];
    let v = s.verdicts.premise[d.id];
    let report = sorted::<StaleEntry>(entries_among(s, s.verdicts.frontier));
    law_stale_where_a_chain_leads_to_a_fallen_force(g, i, k);
    if s.verdicts.frontier.contains(d.id) && v is Stale && exists|m: int|
        0 <= m < v->fallen.len() && (#[trigger] v->fallen[m]).force_id == f.id {
        let m = choose|m: int| 0 <= m < v->fallen.len() && (#[trigger] v->fallen[m]).force_id == f.id;
        lemma_entry_of_verdict(s, i, m);
        let e = stale_entry(g, d.id, v->fallen[m]);
        let q = choose|q: int| 0 <= q < report.len() && report[q] == e;
        assert(report[q].decision_id == d.id && report[q].fallen_force_id == f.id);
    }
    assert forall|m: int|
        0 <= m < report.len() && (#[trigger] report[m]).decision_id == d.id
            && report[m].fallen_force_id == f.id implies s.verdicts.frontier.contains(d.id)
        && v is Stale && exists|q: int|
        0 <= q < v->fallen.len() && (#[trigger] v->fallen[q]).force_id == f.id && report[m]
            == stale_entry(g, d.id, v->fallen[q]) by {
        assert(report.contains(report[m]));
        let (j, q) = lemma_verdict_of_entry(s, report[m]);
        assert(v->fallen[q].force_id == f.id);
    }
    assert(g.records()[i] == RecordView::Decision(d));
    law_lookup_finds(g, i);
}

proof fn lemma_entries_apart(s: SnapshotView, ids: Seq<Seq<char>>)
    requires
        s.sound(),
        ids.no_duplicates(),
    ensures
        entries_among(s, ids).no_duplicates(),
        forall|m: int|
            0 <= m < entries_among(s, ids).len() ==> ids.contains(
                (#[trigger] entries_among(s, ids)[m]).decision_id,
            ),
    decreases ids.len(),
{
    if ids.len() > 0 {
        let t = ids.drop_last();
        let id = ids.last();
        lemma_entries_apart(s, t);
        let a = entries_among(s, t);
        let b = entries_for(s, id);
        let all = entries_among(s, ids);
        assert(all == a + b);
        assert(!t.contains(id)) by {
            if t.contains(id) {
                let q = choose|q: int| 0 <= q < t.len() && t[q] == id;
                assert(ids[q] == ids[ids.len() - 1]);
            }
        }
        assert forall|m: int| 0 <= m < all.len() implies ids.contains(
            (#[trigger] all[m]).decision_id,
        ) by {
            if m < a.len() {
                assert(all[m] == a[m]);
                let q = choose|q: int| 0 <= q < t.len() && t[q] == a[m].decision_id;
                assert(ids[q] == a[m].decision_id);
            } else {
                assert(all[m] == b[m - a.len()]);
                assert(ids[ids.len() - 1] == id);
            }
        }
        assert(b.no_duplicates()) by {
            if b.len() > 0 {
                law_every_decision_is_judged(s.graph, id);
                let i = choose|i: int|
                    0 <= i < s.graph.decisions.len() && (#[trigger] s.graph.decisions[i]).id == id;
                law_verdicts_tell_of_forces_in_order(s.graph, i);
                let fallen = s.verdicts.premise[id]->fallen;
                let k = choose|k: int|
                    0 <= k < s.graph.forces.len() && (#[trigger] s.graph.forces[k]).id
                        == fallen[0].force_id;
                law_stale_where_a_chain_leads_to_a_fallen_force(s.graph, i, k);
                assert forall|m: int, n: int| 0 <= m < b.len() && 0 <= n < b.len() && m != n implies b[m]
                    != b[n] by {
                    assert(b[m].fallen_force_id == fallen[m].force_id);
                    assert(b[n].fallen_force_id == fallen[n].force_id);
                    if m < n {
                        assert(fallen[m].force_id != fallen[n].force_id);
                    } else {
                        assert(fallen[n].force_id != fallen[m].force_id);
                    }
                }
            }
        }
        assert forall|m: int, n: int| 0 <= m < all.len() && 0 <= n < all.len() && m != n implies all[m]
            != all[n] by {
            if m < a.len() && n < a.len() {
                assert(all[m] == a[m] && all[n] == a[n]);
            } else if m >= a.len() && n >= a.len() {
                assert(all[m] == b[m - a.len()] && all[n] == b[n - a.len()]);
            } else if m < a.len() {
                assert(all[m] == a[m] && all[n] == b[n - a.len()]);
                assert(t.contains(a[m].decision_id));
            } else {
                assert(all[n] == a[n] && all[m] == b[m - a.len()]);
                assert(t.contains(a[n].decision_id));
            }
        }
    }
}

/// The stale report tells of a decision and of a force at most once, of nothing
/// but decisions and forces of the corpus, and of retired forces first, then of
/// the nearest, then of the latest, and then in the order of the decisions' ids.
pub proof fn law_stale_report_is_in_order(s: SnapshotView, m: int, n: int)
    requires
        s.sound(),
        0 <= m < n < sorted::<StaleEntry>(entries_among(s, s.verdicts.frontier)).len(),
    ensures
        ({
            let report = sorted::<StaleEntry>(entries_among(s, s.verdicts.frontier));
            let a = report[m];
            let b = report[n];
            &&& a.decision_id != b.decision_id || a.fallen_force_id != b.fallen_force_id
            &&& exists|i: int|
                0 <= i < s.graph.decisions.len() && (#[trigger] s.graph.decisions[i]).id
                    == a.decision_id
            &&& exists|k: int|
                0 <= k < s.graph.forces.len() && (#[trigger] s.graph.forces[k]).id
                    == a.fallen_force_id
            &&& if a.fallen_status != b.fallen_status {
                a.fallen_status == "retired"@ && b.fallen_status == "changed"@
            } else if a.distance != b.distance {
                a.distance < b.distance
            } else if a.since != b.since {
                text_le(b.since, a.since)
            } else {
                text_le(a.decision_id, b.decision_id)
            }
        }),
{
    let g = s.graph;
    let all = entries_among(s, s.verdicts.frontier);
    let report = sorted::<StaleEntry>(all);
    let a = report[m];
    let b = report[n];
    law_frontier_is_the_present(g);
    lemma_entries_apart(s, s.verdicts.frontier);
    law_sorted_rearranges::<StaleEntry>(all);
    all.lemma_multiset_has_no_duplicates();
    report.lemma_multiset_has_no_duplicates_conv();
    law_sorted_in_order::<StaleEntry>(all);
    assert(<StaleEntry as Ordered>::le(a, b));
    assert(report.contains(a) && report.contains(b));
    let (i, x) = lemma_verdict_of_entry(s, a);
    let (j, y) = lemma_verdict_of_entry(s, b);
    law_verdicts_tell_of_forces_in_order(g, i);
    law_verdicts_tell_of_forces_in_order(g, j);
    let p = s.verdicts.premise[a.decision_id]->fallen;
    let q = s.verdicts.premise[b.decision_id]->fallen;
    let k = choose|k: int|
        0 <= k < g.forces.len() && (#[trigger] g.forces[k]).id == p[x].force_id;
    let l = choose|l: int|
        0 <= l < g.forces.len() && (#[trigger] g.forces[l]).id == q[y].force_id;
    law_stale_where_a_chain_leads_to_a_fallen_force(g, i, k);
    law_stale_where_a_chain_leads_to_a_fallen_force(g, j, l);
    assert(p[x].status != ForceStatus::Holds && q[y].status != ForceStatus::Holds);
    reveal_strlit("retired");
    reveal_strlit("changed");
    assert("retired"@[0] == 'r' && "changed"@[0] == 'c');
    if a.decision_id == b.decision_id && a.fallen_force_id == b.fallen_force_id {
        assert(p == q);
        if x < y {
            assert(p[x].force_id != p[y].force_id);
        }
        if y < x {
            assert(p[y].force_id != p[x].force_id);
        }
        assert(a == b);
    }
}

/// The title that is told of an id is that of the record with the id, and empty
/// where there is none.
pub proof fn law_titles_are_those_of_the_records(g: GraphView, k: int, id: Seq<char>)
    requires
        distinct_ids(g),
        0 <= k,
    ensures
        k < g.decisions.len() ==> title_of(g, g.decisions[k].id) == g.decisions[k].title,
        k < g.forces.len() ==> title_of(g, g.forces[k].id) == g.forces[k].title,
        (forall|i: int| 0 <= i < g.decisions.len() ==> (#[trigger] g.decisions[i]).id != id) && (
        forall|i: int| 0 <= i < g.forces.len() ==> (#[trigger] g.forces[i]).id != id) ==> title_of(
            g,
            id,
        ).len() == 0,
{
    if k < g.decisions.len() {
        assert(g.records()[k] == RecordView::Decision(g.decisions[k]));
        law_lookup_finds(g, k);
    }
    if k < g.forces.len() {
        lemma_force_found(g, k);
    }
    if g.lookup(id) is Some {
        law_lookup(g, id);
        let r = g.lookup(id)->0;
        let q = choose|q: int| 0 <= q < g.records().len() && g.records()[q] == r;
        if q < g.decisions.len() {
            assert(g.decisions[q].id == id);
        } else {
            assert(g.forces[q - g.decisions.len()].id == id);
        }
    }
}

/// The forces on which ways start, in order.
pub open spec fn starts(es: Seq<WhyEntryView>) -> Seq<Seq<char>>
    decreases es.len(),
{
    if es.len() == 0 {
        Seq::empty()
    } else if es.last().path == "direct"@ {
        starts(es.drop_last()).push(es.last().force_id)
    } else {
        starts(es.drop_last())
    }
}

/// Those of the ids that are forces of the graph, in order.
pub open spec fn forces_among(g: GraphView, ids: Seq<Seq<char>>) -> Seq<Seq<char>>
    decreases ids.len(),
{
    if ids.len() == 0 {
        Seq::empty()
    } else if exists|k: int| 0 <= k < g.forces.len() && (#[trigger] g.forces[k]).id == ids.last() {
        forces_among(g, ids.drop_last()).push(ids.last())
    } else {
        forces_among(g, ids.drop_last())
    }
}

/// A list `n` times over.
pub open spec fn times_over(s: Seq<Seq<char>>, n: int) -> Seq<Seq<char>>
    decreases n,
{
    if n <= 0 {
        Seq::empty()
    } else {
        times_over(s, n - 1) + s
    }
}

proof fn lemma_starts_sum(a: Seq<WhyEntryView>, b: Seq<WhyEntryView>)
    ensures
        starts(a + b) == starts(a) + starts(b),
    decreases b.len(),
{
    if b.len() == 0 {
        assert(a + b =~= a);
        assert(starts(a) + starts(b) =~= starts(a));
    } else {
        let t = b.drop_last();
        lemma_starts_sum(a, t);
        assert((a + b).drop_last() =~= a + t);
        assert((a + b).last() == b.last());
        assert(starts(a + b) =~= starts(a) + starts(b));
    }
}

proof fn lemma_steps_start_nothing(g: GraphView, first: Seq<char>, es: Seq<WhyEntryView>)
    requires
        goes_on(g, first, es),
    ensures
        starts(es) == Seq::<Seq<char>>::empty(),
    decreases es.len(),
{
    if es.len() > 0 {
        let t = es.drop_last();
        let n = t.len() as int;
        assert(goes_on(g, first, t)) by {
            assert forall|j: int| 0 <= j < t.len() implies is_step(
                g,
                before(t, first, j),
                #[trigger] t[j],
            ) by {
                assert(is_step(g, before(es, first, j), es[j]));
            }
        }
        lemma_steps_start_nothing(g, first, t);
        assert(is_step(g, before(es, first, n), es[n]));
        reveal_strlit("via ");
        reveal_strlit("direct");
        assert(es[n].path[0] == 'v');
        assert("direct"@[0] == 'd');
    }
}

proof fn lemma_cite_starts(g: GraphView, f: ForceView, target: Seq<char>)
    requires
        g.lookup(f.id) == Some(RecordView::Force(f)),
    ensures
        starts(cite_entries(g, f, target)) == seq![f.id],
{
    let head = seq![why_entry(f, "direct"@)];
    let rest = if f.depends_on.contains(target) {
        via_entry(g, target, f.id)
    } else if rests_on(g, target, f.id) {
        way(g, target, f.id, distance(g, target, f.id))
    } else {
        Seq::empty()
    };
    if f.depends_on.contains(target) {
        lemma_via_is_step(g, f, target);
    } else if rests_on(g, target, f.id) {
        lemma_way_goes_on(g, target, f.id, distance(g, target, f.id));
    }
    assert(goes_on(g, f.id, rest));
    lemma_steps_start_nothing(g, f.id, rest);
    lemma_starts_sum(head, rest);
    let none = Seq::<WhyEntryView>::empty();
    assert(head.drop_last() =~= none);
    assert(starts(none) =~= Seq::empty());
    assert(starts(head) =~= seq![f.id]);
    assert(seq![f.id] + Seq::<Seq<char>>::empty() =~= seq![f.id]);
}

proof fn lemma_cites_starts(g: GraphView, cites: Seq<Seq<char>>, target: Seq<char>)
    requires
        distinct_ids(g),
    ensures
        starts(cites_entries(g, cites, target)) == forces_among(g, cites),
    decreases cites.len(),
{
    if cites.len() > 0 {
        let t = cites.drop_last();
        let id = cites.last();
        lemma_cites_starts(g, t, target);
        if let Some(RecordView::Force(f)) = g.lookup(id) {
            lemma_found_force(g, id, f);
            let k = choose|k: int| 0 <= k < g.forces.len() && g.forces[k] == f;
            assert(g.forces[k].id == id);
            lemma_cite_starts(g, f, target);
            lemma_starts_sum(cites_entries(g, t, target), cite_entries(g, f, target));
            assert(forces_among(g, t) + seq![id] =~= forces_among(g, t).push(id));
        } else if exists|k: int| 0 <= k < g.forces.len() && (#[trigger] g.forces[k]).id == id {
            let k = choose|k: int| 0 <= k < g.forces.len() && (#[trigger] g.forces[k]).id == id;
            lemma_force_found(g, k);
        }
    }
}

proof fn lemma_fallen_starts(g: GraphView, d: DecisionView, fallen: Seq<FallenPremiseView>)
    requires
        distinct_ids(g),
        g.lookup(d.id) == Some(RecordView::Decision(d)),
    ensures
        starts(fallen_entries(g, d.id, fallen)) == times_over(
            forces_among(g, d.cites),
            fallen.len() as int,
        ),
    decreases fallen.len(),
{
    if fallen.len() > 0 {
        let t = fallen.drop_last();
        let target = fallen.last().force_id;
        lemma_fallen_starts(g, d, t);
        lemma_cites_starts(g, d.cites, target);
        lemma_starts_sum(fallen_entries(g, d.id, t), cites_entries(g, d.cites, target));
    }
}

/// Of a stale decision, why tells a way from each force that it cites, in the
/// order of the citations, once for each force that fell.
pub proof fn law_why_starts_from_each_citation_once_a_fall(s: SnapshotView, i: int)
    requires
        s.sound(),
        0 <= i < s.graph.decisions.len(),
        s.verdicts.premise[s.graph.decisions[i].id] is Stale,
    ensures
        ({
            let d = s.graph.decisions[i];
            starts(why_of(s, d.id)->0) == times_over(
                forces_among(s.graph, d.cites),
                s.verdicts.premise[d.id]->fallen.len() as int,
            )
        }),
{
    let g = s.graph;
    let d = g.decisions[i];
    assert(g.records()[i] == RecordView::Decision(d));
    law_lookup_finds(g, i);
    law_every_decision_is_judged(g, d.id);
    assert(g.decisions[i].id == d.id);
    lemma_fallen_starts(g, d, s.verdicts.premise[d.id]->fallen);
}

} // verus!
