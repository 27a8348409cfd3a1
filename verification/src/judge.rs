//! The judge: which decisions rest on forces that fell, and which decisions
//! are the present.
use vstd::prelude::*;
use crate::cycles::force_ids;
use crate::graph::{
    distinct_ids, last_with, law_cited_by, law_depended_by, law_lookup_finds, Graph, GraphView,
    Record, RecordView,
};
use crate::linker::{decision_ids, distinct_paths, law_link_ignores_order, links, LinkedView};
use crate::order::{
    in_order, law_sorted_in_order, law_sorted_rearranges, lemma_sorted_contains,
    lemma_text_le_total, lemma_text_le_transitive, sort, sorted, text_le, text_not_after, Ordered,
};
use crate::record::{
    Decision, DecisionStatus, DecisionView, Force, ForceStatus, ParsedView,
};
use crate::text::{lemma_push_contains, same_text, views};
use vstd::hash_map::StringHashMap;
use vstd::hash_set::StringHashSet;
use vstd::set_lib::lemma_len_subset;

verus! {

/// A force that fell and that a decision rests on.
#[derive(Debug)]
pub struct FallenPremise {
    pub force_id: String,
    pub status: ForceStatus,
    /// How many steps lie between the force and the decision.
    pub distance: u32,
    /// When the force fell.
    pub since: String,
}

/// What a [`FallenPremise`] stands for.
#[verifier::ext_equal]
pub struct FallenPremiseView {
    pub force_id: Seq<char>,
    pub status: ForceStatus,
    pub distance: nat,
    pub since: Seq<char>,
}

impl View for FallenPremise {
    type V = FallenPremiseView;

    open spec fn view(&self) -> FallenPremiseView {
        FallenPremiseView {
            force_id: self.force_id@,
            status: self.status,
            distance: self.distance as nat,
            since: self.since@,
        }
    }
}

/// The verdict on the premises of a decision.
#[derive(Debug)]
pub enum PremiseVerdict {
    /// Everything that the decision rests on holds.
    Fresh,
    /// Something that the decision rests on fell.
    Stale { fallen: Vec<FallenPremise> },
}

/// What a [`PremiseVerdict`] stands for.
#[verifier::ext_equal]
pub enum PremiseVerdictView {
    Fresh,
    Stale { fallen: Seq<FallenPremiseView> },
}

impl View for PremiseVerdict {
    type V = PremiseVerdictView;

    open spec fn view(&self) -> PremiseVerdictView {
        match self {
            PremiseVerdict::Fresh => PremiseVerdictView::Fresh,
            PremiseVerdict::Stale { fallen } => PremiseVerdictView::Stale { fallen: views(fallen@) },
        }
    }
}

/// The verdicts on a graph.
pub struct Verdicts {
    /// The verdict on each decision, by its id.
    pub premise: StringHashMap<PremiseVerdict>,
    /// The ids that are superseded.
    pub superseded: StringHashSet,
    /// The decisions that are not superseded, in order.
    pub frontier: Vec<String>,
}

/// What [`Verdicts`] stand for.
#[verifier::ext_equal]
pub struct VerdictsView {
    pub premise: Map<Seq<char>, PremiseVerdictView>,
    pub superseded: Set<Seq<char>>,
    pub frontier: Seq<Seq<char>>,
}

impl View for Verdicts {
    type V = VerdictsView;

    open spec fn view(&self) -> VerdictsView {
        VerdictsView {
            premise: self.premise@.map_values(|v: PremiseVerdict| v@),
            superseded: self.superseded@,
            frontier: views(self.frontier@),
        }
    }
}

/// How bad a status is; the worst comes first.
pub open spec fn severity(s: ForceStatus) -> int {
    match s {
        ForceStatus::Retired => 0,
        ForceStatus::Changed => 1,
        ForceStatus::Holds => 2,
    }
}

impl Ordered for FallenPremise {
    /// By severity, then by distance, then by the force's id.
    open spec fn le(a: FallenPremiseView, b: FallenPremiseView) -> bool {
        if severity(a.status) != severity(b.status) {
            severity(a.status) < severity(b.status)
        } else if a.distance != b.distance {
            a.distance < b.distance
        } else {
            text_le(a.force_id, b.force_id)
        }
    }

    proof fn le_total(a: FallenPremiseView, b: FallenPremiseView) {
        lemma_text_le_total(a.force_id, b.force_id);
    }

    proof fn le_transitive(a: FallenPremiseView, b: FallenPremiseView, c: FallenPremiseView) {
        if text_le(a.force_id, b.force_id) && text_le(b.force_id, c.force_id) {
            lemma_text_le_transitive(a.force_id, b.force_id, c.force_id);
        }
    }

    fn not_after(&self, other: &Self) -> (r: bool) {
        let a = severity_of(self.status);
        let b = severity_of(other.status);
        if a != b {
            a < b
        } else if self.distance != other.distance {
            self.distance < other.distance
        } else {
            text_not_after(self.force_id.as_str(), other.force_id.as_str())
        }
    }
}

fn severity_of(s: ForceStatus) -> (r: u8)
    ensures
        r == severity(s),
{
    match s {
        ForceStatus::Retired => 0,
        ForceStatus::Changed => 1,
        ForceStatus::Holds => 2,
    }
}

/// Whether `y` rests directly on `x`: it is a force that depends on `x`, or a
/// decision that cites it.
pub open spec fn bears(g: GraphView, x: Seq<char>, y: Seq<char>) -> bool {
    ||| exists|i: int|
        0 <= i < g.forces.len() && (#[trigger] g.forces[i]).id == y
            && g.forces[i].depends_on.contains(x)
    ||| exists|i: int|
        0 <= i < g.decisions.len() && (#[trigger] g.decisions[i]).id == y
            && g.decisions[i].cites.contains(x)
}

/// Whether `y` rests on `x` over `n` steps.
pub open spec fn rests(g: GraphView, x: Seq<char>, y: Seq<char>, n: nat) -> bool
    decreases n,
{
    if n == 0 {
        x == y
    } else {
        exists|z: Seq<char>| rests(g, x, z, (n - 1) as nat) && #[trigger] bears(g, z, y)
    }
}

/// Whether `n` is the least number of steps over which `y` rests on `x`.
pub open spec fn is_distance(g: GraphView, x: Seq<char>, y: Seq<char>, n: nat) -> bool {
    rests(g, x, y, n) && forall|m: nat| m < n ==> !#[trigger] rests(g, x, y, m)
}

/// Whether `y` rests on `x` at all.
pub open spec fn rests_on(g: GraphView, x: Seq<char>, y: Seq<char>) -> bool {
    exists|n: nat| rests(g, x, y, n)
}

/// The least number of steps over which `y` rests on `x`.
pub open spec fn distance(g: GraphView, x: Seq<char>, y: Seq<char>) -> nat {
    choose|n: nat| is_distance(g, x, y, n)
}

/// The fallen forces, among the first `k`, that the decision `id` rests on.
pub open spec fn fallen_premises(g: GraphView, k: int, id: Seq<char>) -> Seq<FallenPremiseView>
    decreases k,
{
    if k <= 0 {
        Seq::empty()
    } else {
        let before = fallen_premises(g, k - 1, id);
        let f = g.forces[k - 1];
        if f.is_fallen() && g.lookup(id) is Some && g.lookup(id)->0 is Decision && rests_on(
            g,
            f.id,
            id,
        ) {
            before.push(
                FallenPremiseView {
                    force_id: f.id,
                    status: f.current_status(),
                    distance: distance(g, f.id, id),
                    since: f.status_log.last().since,
                },
            )
        } else {
            before
        }
    }
}

/// The verdict on the premises of a decision.
pub open spec fn verdict_on(g: GraphView, id: Seq<char>) -> PremiseVerdictView {
    let fallen = fallen_premises(g, g.forces.len() as int, id);
    if fallen.len() == 0 {
        PremiseVerdictView::Fresh
    } else {
        PremiseVerdictView::Stale { fallen: sorted::<FallenPremise>(fallen) }
    }
}

/// Whether an id is superseded: its decision is deprecated, or another
/// decision supersedes it.
pub open spec fn is_superseded(g: GraphView, id: Seq<char>) -> bool {
    exists|i: int|
        0 <= i < g.decisions.len() && supersedes(#[trigger] g.decisions[i], id)
}

/// Whether a decision takes an id out of the present: its own by being
/// deprecated, and that of another by superseding it.
pub open spec fn supersedes(d: DecisionView, id: Seq<char>) -> bool {
    if d.id == id {
        d.status == DecisionStatus::Deprecated
    } else {
        d.supersedes.contains(id)
    }
}

/// The ids of the first `k` decisions that are not superseded, each once.
pub open spec fn present_ids(g: GraphView, k: int) -> Seq<Seq<char>>
    decreases k,
{
    if k <= 0 {
        Seq::empty()
    } else {
        let before = present_ids(g, k - 1);
        let id = g.decisions[k - 1].id;
        if is_superseded(g, id) || before.contains(id) {
            before
        } else {
            before.push(id)
        }
    }
}

/// The verdicts on a graph.
pub open spec fn judged(g: GraphView) -> VerdictsView {
    VerdictsView {
        premise: Map::new(
            |id: Seq<char>| decision_ids(g.decisions).contains(id),
            |id: Seq<char>| verdict_on(g, id),
        ),
        superseded: Set::new(|id: Seq<char>| is_superseded(g, id)),
        frontier: sorted::<String>(present_ids(g, g.decisions.len() as int)),
    }
}

/// A text, with how far it lies from where the search started.
struct Met {
    id: String,
    distance: u32,
}

/// All ids of the records.
spec fn all_ids(g: GraphView) -> Seq<Seq<char>> {
    force_ids(g.forces) + decision_ids(g.decisions)
}

spec fn met_ids(met: Seq<Met>) -> Seq<Seq<char>> {
    met.map_values(|m: Met| m.id@)
}

/// Whether everything that rests directly on `x` was met, no more than one
/// step after `x`.
spec fn spread(g: GraphView, far: Map<Seq<char>, u32>, x: Seq<char>) -> bool {
    forall|y: Seq<char>| #[trigger]
        bears(g, x, y) ==> far.contains_key(y) && far[y] <= far[x] + 1
}

/// The state of the search from `start`: `met` in the order of meeting, the
/// first `head` of which are done.
spec fn searching(
    g: GraphView,
    start: Seq<char>,
    met: Seq<Met>,
    far: Map<Seq<char>, u32>,
    head: int,
) -> bool {
    &&& 0 <= head <= met.len()
    &&& met.len() > 0
    &&& met_ids(met).no_duplicates()
    &&& forall|j: int|
        0 <= j < met.len() ==> {
            let m = #[trigger] met[j];
            &&& far.contains_key(m.id@)
            &&& far[m.id@] == m.distance
            &&& all_ids(g).contains(m.id@)
            &&& rests(g, start, m.id@, m.distance as nat)
            &&& m.distance <= j
        }
    &&& forall|y: Seq<char>| #[trigger] far.contains_key(y) ==> met_ids(met).contains(y)
    &&& far.contains_key(start)
    &&& far[start] == 0
    &&& forall|i: int, j: int|
        0 <= i <= j < met.len() ==> (#[trigger] met[i]).distance <= (#[trigger] met[j]).distance
    &&& head < met.len() ==> forall|j: int|
        0 <= j < met.len() ==> (#[trigger] met[j]).distance <= met[head].distance + 1
    &&& forall|j: int| 0 <= j < head ==> spread(g, far, (#[trigger] met[j]).id@)
}

proof fn lemma_few_met(g: GraphView, ids: Seq<Seq<char>>)
    requires
        ids.no_duplicates(),
        forall|j: int| 0 <= j < ids.len() ==> all_ids(g).contains(#[trigger] ids[j]),
    ensures
        ids.len() <= g.forces.len() + g.decisions.len(),
{
    let all = all_ids(g);
    ids.unique_seq_to_set();
    all.lemma_cardinality_of_set();
    assert forall|x: Seq<char>| ids.to_set().contains(x) implies all.to_set().contains(x) by {
        let j = choose|j: int| 0 <= j < ids.len() && ids[j] == x;
        assert(all.contains(ids[j]));
    }
    assert(ids.to_set().subset_of(all.to_set()));
    vstd::seq_lib::seq_to_set_is_finite(all);
    lemma_len_subset(ids.to_set(), all.to_set());
}

proof fn lemma_bears_ids(g: GraphView, x: Seq<char>, y: Seq<char>)
    requires
        bears(g, x, y),
    ensures
        all_ids(g).contains(y),
{
    crate::text::lemma_sum_contains(force_ids(g.forces), decision_ids(g.decisions));
    if exists|i: int|
        0 <= i < g.forces.len() && (#[trigger] g.forces[i]).id == y
            && g.forces[i].depends_on.contains(x) {
        let i = choose|i: int|
            0 <= i < g.forces.len() && (#[trigger] g.forces[i]).id == y
                && g.forces[i].depends_on.contains(x);
        assert(force_ids(g.forces)[i] == y);
    } else {
        let i = choose|i: int|
            0 <= i < g.decisions.len() && (#[trigger] g.decisions[i]).id == y
                && g.decisions[i].cites.contains(x);
        assert(decision_ids(g.decisions)[i] == y);
    }
}

/// Whether a later state of the search keeps what was met.
spec fn keeps(
    met: Seq<Met>,
    far: Map<Seq<char>, u32>,
    met2: Seq<Met>,
    far2: Map<Seq<char>, u32>,
) -> bool {
    &&& met.len() <= met2.len()
    &&& forall|j: int| 0 <= j < met.len() ==> #[trigger] met2[j] == met[j]
    &&& forall|y: Seq<char>| #[trigger]
        far.contains_key(y) ==> far2.contains_key(y) && far2[y] == far[y]
}

proof fn lemma_meet(
    g: GraphView,
    start: Seq<char>,
    met: Seq<Met>,
    far: Map<Seq<char>, u32>,
    head: int,
    m: Met,
)
    requires
        searching(g, start, met, far, head),
        head < met.len(),
        bears(g, met[head].id@, m.id@),
        m.distance == met[head].distance + 1,
        !far.contains_key(m.id@),
    ensures
        searching(g, start, met.push(m), far.insert(m.id@, m.distance), head),
        keeps(met, far, met.push(m), far.insert(m.id@, m.distance)),
{
    let met2 = met.push(m);
    let far2 = far.insert(m.id@, m.distance);
    assert(met_ids(met2) =~= met_ids(met).push(m.id@));
    assert(!met_ids(met).contains(m.id@)) by {
        if met_ids(met).contains(m.id@) {
            let j = choose|j: int| 0 <= j < met.len() && met_ids(met)[j] == m.id@;
            assert(far.contains_key(met[j].id@));
        }
    }
    lemma_push_contains(met_ids(met), m.id@);
    lemma_bears_ids(g, met[head].id@, m.id@);
    assert(rests(g, start, met[head].id@, met[head].distance as nat));
    assert((m.distance as nat - 1) as nat == met[head].distance as nat);
    assert(rests(g, start, m.id@, m.distance as nat));
    assert forall|j: int| 0 <= j < met2.len() implies {
        let n = #[trigger] met2[j];
        &&& far2.contains_key(n.id@)
        &&& far2[n.id@] == n.distance
        &&& all_ids(g).contains(n.id@)
        &&& rests(g, start, n.id@, n.distance as nat)
        &&& n.distance <= j
    } by {
        if j < met.len() {
            assert(met2[j] == met[j]);
            assert(far.contains_key(met[j].id@));
        }
    }
    assert forall|i: int, j: int| 0 <= i <= j < met2.len() implies (#[trigger] met2[i]).distance
        <= (#[trigger] met2[j]).distance by {
        if j < met.len() {
            assert(met[i].distance <= met[j].distance);
        } else if i < met.len() {
            assert(met[i].distance <= met[head].distance + 1);
        }
    }
    assert forall|j: int| 0 <= j < met2.len() implies (#[trigger] met2[j]).distance
        <= met2[head].distance + 1 by {
        if j < met.len() {
            assert(met[j].distance <= met[head].distance + 1);
        }
    }
    assert forall|j: int| 0 <= j < head implies spread(g, far2, (#[trigger] met2[j]).id@) by {
        assert(spread(g, far, met[j].id@));
        assert(met2[j] == met[j]);
        assert(far.contains_key(met[j].id@));
        assert forall|y: Seq<char>| #[trigger] bears(g, met2[j].id@, y) implies far2.contains_key(y)
            && far2[y] <= far2[met2[j].id@] + 1 by {
            assert(far.contains_key(y));
        }
    }
}

/// Meets each of the given ids, which rest directly on the one at the head.
fn meet_all(
    ids: Vec<String>,
    head: usize,
    met: &mut Vec<Met>,
    far: &mut StringHashMap<u32>,
    Ghost(g): Ghost<GraphView>,
    Ghost(start): Ghost<Seq<char>>,
)
    requires
        searching(g, start, old(met)@, old(far)@, head as int),
        head < old(met).len(),
        g.forces.len() + g.decisions.len() <= u32::MAX,
        forall|y: Seq<char>| #[trigger]
            views(ids@).contains(y) ==> bears(g, old(met)@[head as int].id@, y),
    ensures
        searching(g, start, final(met)@, final(far)@, head as int),
        keeps(old(met)@, old(far)@, final(met)@, final(far)@),
        forall|y: Seq<char>| #[trigger]
            views(ids@).contains(y) ==> final(far)@.contains_key(y),
{
    let ghost first = met@;
    let ghost first_far = far@;
    let ghost ys = views(ids@);
    for id in it: ids.into_iter()
        invariant
            ys == views(it.seq()),
            searching(g, start, met@, far@, head as int),
            head < first.len(),
            g.forces.len() + g.decisions.len() <= u32::MAX,
            keeps(first, first_far, met@, far@),
            forall|y: Seq<char>| #[trigger] ys.contains(y) ==> bears(g, first[head as int].id@, y),
            forall|j: int| 0 <= j < it.index() ==> far@.contains_key(#[trigger] ys[j]),
    {
        let ghost i = it.index() as int;
        let ghost before = met@;
        let ghost before_far = far@;
        assert(ys[i] == id@);
        assert(ys.contains(id@));
        assert(met@[head as int] == first[head as int]);
        if !far.contains_key(id.as_str()) {
            proof {
                assert forall|j: int| 0 <= j < met@.len() implies all_ids(g).contains(
                    #[trigger] met_ids(met@)[j],
                ) by {
                    assert(met@[j] == met@[j]);
                }
                lemma_few_met(g, met_ids(met@));
                assert(met@[head as int].distance <= head);
            }
            let distance: u32 = met[head].distance + 1;
            far.insert(id.clone(), distance);
            let m = Met { id, distance };
            proof {
                lemma_meet(g, start, before, before_far, head as int, m);
            }
            met.push(m);
        }
        assert(keeps(first, first_far, met@, far@)) by {
            assert forall|j: int| 0 <= j < first.len() implies #[trigger] met@[j] == first[j] by {
                assert(before[j] == first[j]);
            }
        }
        assert(far@.contains_key(ys[i]));
    }
    assert forall|y: Seq<char>| #[trigger] ys.contains(y) implies far@.contains_key(y) by {
        let j = choose|j: int| 0 <= j < ys.len() && ys[j] == y;
        assert(far@.contains_key(ys[j]));
    }
}

proof fn lemma_done_search(
    g: GraphView,
    start: Seq<char>,
    met: Seq<Met>,
    far: Map<Seq<char>, u32>,
    y: Seq<char>,
    n: nat,
)
    requires
        searching(g, start, met, far, met.len() as int),
        rests(g, start, y, n),
    ensures
        far.contains_key(y),
        far[y] <= n,
    decreases n,
{
    if n > 0 {
        let z = choose|z: Seq<char>| rests(g, start, z, (n - 1) as nat) && #[trigger] bears(g, z, y);
        lemma_done_search(g, start, met, far, z, (n - 1) as nat);
        assert(met_ids(met).contains(z));
        let j = choose|j: int| 0 <= j < met.len() && met_ids(met)[j] == z;
        assert(spread(g, far, met[j].id@));
    }
}

/// How far everything that rests on `start` lies from it.
pub fn distances(graph: &Graph, start: &str) -> (far: StringHashMap<u32>)
    requires
        force_ids(graph@.forces).contains(start@),
        graph@.forces.len() + graph@.decisions.len() <= u32::MAX,
    ensures
        forall|y: Seq<char>| #[trigger] far@.contains_key(y) <==> rests_on(graph@, start@, y),
        forall|y: Seq<char>| #[trigger]
            far@.contains_key(y) ==> is_distance(graph@, start@, y, far@[y] as nat),
{
    let ghost g = graph@;
    let mut far: StringHashMap<u32> = StringHashMap::new();
    far.insert(start.to_string(), 0);
    let mut met: Vec<Met> = Vec::new();
    met.push(Met { id: start.to_string(), distance: 0 });
    proof {
        crate::text::lemma_sum_contains(force_ids(g.forces), decision_ids(g.decisions));
        assert(met_ids(met@) =~= seq![start@]);
        assert(met_ids(met@).contains(start@)) by {
            assert(met_ids(met@)[0] == start@);
        }
        assert(rests(g, start@, start@, 0));
    }
    let mut head: usize = 0;
    while head < met.len()
        invariant
            g == graph@,
            searching(g, start@, met@, far@, head as int),
            g.forces.len() + g.decisions.len() <= u32::MAX,
        decreases g.forces.len() + g.decisions.len() - head,
    {
        proof {
            assert forall|j: int| 0 <= j < met@.len() implies all_ids(g).contains(
                #[trigger] met_ids(met@)[j],
            ) by {
                assert(met@[j] == met@[j]);
            }
            lemma_few_met(g, met_ids(met@));
        }
        let ghost met0 = met@;
        let ghost far0 = far@;
        let ghost x = met@[head as int].id@;
        let dependants = graph.depended_by(met[head].id.as_str());
        let citers = graph.cited_by(met[head].id.as_str());
        proof {
            assert forall|y: Seq<char>| #[trigger] views(dependants@).contains(y) implies bears(
                g,
                x,
                y,
            ) by {
                law_depended_by(g, x, y);
            }
            assert forall|y: Seq<char>| #[trigger] views(citers@).contains(y) implies bears(
                g,
                x,
                y,
            ) by {
                law_cited_by(g, x, y);
            }
        }
        let ghost a = views(dependants@);
        let ghost b = views(citers@);
        meet_all(dependants, head, &mut met, &mut far, Ghost(g), Ghost(start@));
        let ghost far1 = far@;
        assert(met@[head as int] == met0[head as int]);
        meet_all(citers, head, &mut met, &mut far, Ghost(g), Ghost(start@));
        proof {
            assert(met@[head as int].id@ == x);
            assert(spread(g, far@, x)) by {
                assert forall|y: Seq<char>| #[trigger] bears(g, x, y) implies far@.contains_key(y)
                    && far@[y] <= far@[x] + 1 by {
                    law_depended_by(g, x, y);
                    law_cited_by(g, x, y);
                    assert(a.contains(y) || b.contains(y));
                    assert(a.contains(y) ==> far1.contains_key(y));
                    assert(met_ids(met@).contains(y));
                    let j = choose|j: int| 0 <= j < met@.len() && met_ids(met@)[j] == y;
                    assert(met@[j].distance <= met@[head as int].distance + 1);
                }
            }
            if head + 1 < met@.len() {
                assert(met@[head as int].distance <= met@[head + 1].distance);
                assert forall|j: int| 0 <= j < met@.len() implies (#[trigger] met@[j]).distance
                    <= met@[head + 1].distance + 1 by {
                    assert(met@[j].distance <= met@[head as int].distance + 1);
                }
            }
            assert forall|j: int| 0 <= j < head + 1 implies spread(
                g,
                far@,
                (#[trigger] met@[j]).id@,
            ) by {}
        }
        head = head + 1;
    }
    proof {
        assert forall|y: Seq<char>| #[trigger] far@.contains_key(y) <==> rests_on(
            g,
            start@,
            y,
        ) by {
            if far@.contains_key(y) {
                assert(met_ids(met@).contains(y));
                let j = choose|j: int| 0 <= j < met@.len() && met_ids(met@)[j] == y;
                assert(rests(g, start@, met@[j].id@, met@[j].distance as nat));
            }
            if rests_on(g, start@, y) {
                let n = choose|n: nat| rests(g, start@, y, n);
                lemma_done_search(g, start@, met@, far@, y, n);
            }
        }
        assert forall|y: Seq<char>| #[trigger] far@.contains_key(y) implies is_distance(
            g,
            start@,
            y,
            far@[y] as nat,
        ) by {
            assert(met_ids(met@).contains(y));
            let j = choose|j: int| 0 <= j < met@.len() && met_ids(met@)[j] == y;
            assert(rests(g, start@, met@[j].id@, met@[j].distance as nat));
            assert forall|m: nat| m < far@[y] implies !#[trigger] rests(g, start@, y, m) by {
                if rests(g, start@, y, m) {
                    lemma_done_search(g, start@, met@, far@, y, m);
                }
            }
        }
    }
    far
}

/// There is at most one least number of steps.
pub proof fn lemma_distance(g: GraphView, x: Seq<char>, y: Seq<char>, n: nat)
    requires
        is_distance(g, x, y, n),
    ensures
        rests_on(g, x, y),
        distance(g, x, y) == n,
{
    let d = distance(g, x, y);
    assert(is_distance(g, x, y, d));
    if d < n {
        assert(!rests(g, x, y, d));
    }
    if n < d {
        assert(!rests(g, x, y, n));
    }
}

/// Notes that a decision rests on the fallen force at the place `k`, if it does.
fn note_fall(
    graph: &Graph,
    f: &Force,
    far: &StringHashMap<u32>,
    id: &str,
    list: &mut Vec<FallenPremise>,
    Ghost(k): Ghost<int>,
)
    requires
        0 <= k < graph@.forces.len(),
        f@ == graph@.forces[k],
        f@.status_log.len() > 0,
        f@.is_fallen(),
        forall|y: Seq<char>| #[trigger] far@.contains_key(y) <==> rests_on(graph@, f@.id, y),
        forall|y: Seq<char>| #[trigger]
            far@.contains_key(y) ==> is_distance(graph@, f@.id, y, far@[y] as nat),
        views(old(list)@) == fallen_premises(graph@, k, id@),
    ensures
        views(final(list)@) == fallen_premises(graph@, k + 1, id@),
{
    let ghost before = views(list@);
    let found = match far.get(id) {
        Some(d) => Some(*d),
        None => None,
    };
    if let Some(d) = found {
        let is_decision = match graph.get(id) {
            Some(Record::Decision(_)) => true,
            _ => false,
        };
        proof {
            lemma_distance(graph@, f@.id, id@, d as nat);
        }
        if is_decision {
            let last = &f.status_log[f.status_log.len() - 1];
            let fall = FallenPremise {
                force_id: f.id.clone(),
                status: f.current_status(),
                distance: d,
                since: last.since.clone(),
            };
            assert(f@.status_log.last() == last@);
            list.push(fall);
            assert(views(list@) =~= before.push(fall@));
        }
    }
}

/// Finds the fallen forces that each of the decisions rests on.
fn find_falls(graph: &Graph, decisions: &Vec<&Decision>) -> (lists: Vec<Vec<FallenPremise>>)
    requires
        views(decisions@) == graph@.decisions,
        graph@.forces.len() + graph@.decisions.len() <= u32::MAX,
        forall|i: int|
            0 <= i < graph@.forces.len() ==> (#[trigger] graph@.forces[i]).status_log.len() > 0,
    ensures
        lists.len() == decisions.len(),
        forall|i: int|
            0 <= i < lists.len() ==> views((#[trigger] lists@[i])@) == fallen_premises(
                graph@,
                graph@.forces.len() as int,
                graph@.decisions[i].id,
            ),
{
    let ghost g = graph@;
    let forces = graph.forces();
    assert(forces.len() == g.forces.len()) by {
        assert(views(forces@).len() == forces@.len());
    }
    let mut lists: Vec<Vec<FallenPremise>> = Vec::new();
    for i in 0..decisions.len()
        invariant
            lists.len() == i,
            forall|j: int|
                0 <= j < i ==> views((#[trigger] lists@[j])@) == fallen_premises(
                    g,
                    0,
                    g.decisions[j].id,
                ),
    {
        let list: Vec<FallenPremise> = Vec::new();
        assert(views(list@) =~= Seq::empty());
        lists.push(list);
    }
    for k in 0..forces.len()
        invariant
            g == graph@,
            views(decisions@) == g.decisions,
            views(forces@) == g.forces,
            forces.len() == g.forces.len(),
            lists.len() == decisions.len(),
            g.forces.len() + g.decisions.len() <= u32::MAX,
            forall|i: int|
                0 <= i < g.forces.len() ==> (#[trigger] g.forces[i]).status_log.len() > 0,
            forall|i: int|
                0 <= i < lists.len() ==> views((#[trigger] lists@[i])@) == fallen_premises(
                    g,
                    k as int,
                    g.decisions[i].id,
                ),
    {
        let f = forces[k];
        proof {
            assert(views(forces@)[k as int] == f@);
            assert(force_ids(g.forces)[k as int] == f@.id);
        }
        if f.current_status() != ForceStatus::Holds {
            let far = distances(graph, f.id.as_str());
            for i in 0..decisions.len()
                invariant
                    g == graph@,
                    views(decisions@) == g.decisions,
                    lists.len() == decisions.len(),
                    0 <= k < g.forces.len(),
                    f@ == g.forces[k as int],
                    f@.status_log.len() > 0,
                    f@.is_fallen(),
                    forall|y: Seq<char>| #[trigger]
                        far@.contains_key(y) <==> rests_on(g, f@.id, y),
                    forall|y: Seq<char>| #[trigger]
                        far@.contains_key(y) ==> is_distance(g, f@.id, y, far@[y] as nat),
                    forall|j: int|
                        0 <= j < lists.len() ==> views((#[trigger] lists@[j])@) == fallen_premises(
                            g,
                            if j < i {
                                k + 1
                            } else {
                                k as int
                            },
                            g.decisions[j].id,
                        ),
            {
                assert(views(decisions@)[i as int] == decisions@[i as int]@);
                note_fall(
                    graph,
                    f,
                    &far,
                    decisions[i].id.as_str(),
                    &mut lists[i],
                    Ghost(k as int),
                );
            }
        }
    }
    lists
}

/// Collects the ids that are superseded.
fn find_superseded(decisions: &Vec<&Decision>, Ghost(g): Ghost<GraphView>) -> (r: StringHashSet)
    requires
        views(decisions@) == g.decisions,
    ensures
        r@ == Set::new(|id: Seq<char>| is_superseded(g, id)),
{
    let mut r = StringHashSet::new();
    let ghost ds = g.decisions;
    for i in 0..decisions.len()
        invariant
            views(decisions@) == ds,
            ds == g.decisions,
            forall|id: Seq<char>| #[trigger]
                r@.contains(id) <==> exists|j: int| 0 <= j < i && supersedes(#[trigger] ds[j], id),
    {
        let d = decisions[i];
        let ghost before = r@;
        assert(ds[i as int] == d@);
        if d.status == DecisionStatus::Deprecated {
            r.insert(d.id.clone());
        }
        let ghost own = r@;
        for k in 0..d.supersedes.len()
            invariant
                forall|id: Seq<char>| #[trigger]
                    r@.contains(id) <==> own.contains(id) || id != d@.id
                        && d@.supersedes.take(k as int).contains(id),
        {
            proof {
                assert(d@.supersedes.take(k + 1) =~= d@.supersedes.take(k as int).push(
                    d.supersedes@[k as int]@,
                ));
                lemma_push_contains(d@.supersedes.take(k as int), d.supersedes@[k as int]@);
            }
            if !same_text(d.supersedes[k].as_str(), d.id.as_str()) {
                r.insert(d.supersedes[k].clone());
            }
        }
        proof {
            assert(d@.supersedes.take(d@.supersedes.len() as int) =~= d@.supersedes);
            assert forall|id: Seq<char>| #[trigger] r@.contains(id) <==> exists|j: int|
                0 <= j < i + 1 && supersedes(#[trigger] ds[j], id) by {
                assert(before.contains(id) || supersedes(ds[i as int], id) <==> r@.contains(id));
                if before.contains(id) {
                    let j = choose|j: int| 0 <= j < i && supersedes(#[trigger] ds[j], id);
                    assert(supersedes(ds[j], id));
                }
                if exists|j: int| 0 <= j < i + 1 && supersedes(#[trigger] ds[j], id) {
                    let j = choose|j: int| 0 <= j < i + 1 && supersedes(#[trigger] ds[j], id);
                    if j < i {
                        assert(before.contains(id));
                    }
                }
            }
        }
    }
    proof {
        assert(decisions.len() == ds.len()) by {
            assert(views(decisions@).len() == decisions@.len());
        }
        assert(r@ =~= Set::new(|id: Seq<char>| is_superseded(g, id)));
    }
    r
}

/// Collects the decisions that are not superseded, in order.
fn find_frontier(
    decisions: &Vec<&Decision>,
    superseded: &StringHashSet,
    Ghost(g): Ghost<GraphView>,
) -> (r: Vec<String>)
    requires
        views(decisions@) == g.decisions,
        superseded@ == Set::new(|id: Seq<char>| is_superseded(g, id)),
    ensures
        views(r@) == sorted::<String>(present_ids(g, g.decisions.len() as int)),
{
    let mut seen = StringHashSet::new();
    let mut ids: Vec<String> = Vec::new();
    assert(views(ids@) =~= present_ids(g, 0));
    for i in 0..decisions.len()
        invariant
            views(decisions@) == g.decisions,
            superseded@ == Set::new(|id: Seq<char>| is_superseded(g, id)),
            views(ids@) == present_ids(g, i as int),
            forall|id: Seq<char>| #[trigger] seen@.contains(id) <==> views(ids@).contains(id),
    {
        let ghost before = views(ids@);
        let id = &decisions[i].id;
        assert(g.decisions[i as int].id == id@);
        if !superseded.contains(id.as_str()) {
            let fresh = seen.insert(id.clone());
            if fresh {
                ids.push(id.clone());
                proof {
                    assert(views(ids@) =~= before.push(id@));
                    lemma_push_contains(before, id@);
                }
            }
        }
    }
    assert(decisions.len() == g.decisions.len()) by {
        assert(views(decisions@).len() == decisions@.len());
    }
    sort(ids)
}

/// Judges a graph: the verdict on the premises of each decision, what is
/// superseded, and the frontier. Every force has a status, and there are no
/// more records than a distance can count.
pub fn judge(graph: &Graph) -> (verdicts: Verdicts)
    requires
        graph@.forces.len() + graph@.decisions.len() <= u32::MAX,
        forall|i: int|
            0 <= i < graph@.forces.len() ==> (#[trigger] graph@.forces[i]).status_log.len() > 0,
    ensures
        verdicts@ == judged(graph@),
{
    let ghost g = graph@;
    let decisions = graph.decisions();
    let lists = find_falls(graph, &decisions);
    let mut premise: StringHashMap<PremiseVerdict> = StringHashMap::new();
    let ghost ds = g.decisions;
    let mut i: usize = 0;
    for list in it: lists.into_iter()
        invariant
            views(decisions@) == ds,
            g == graph@,
            ds == g.decisions,
            it.seq() == lists@,
            lists.len() == decisions.len(),
            i == it.index(),
            forall|j: int|
                0 <= j < lists.len() ==> views((#[trigger] lists@[j])@) == fallen_premises(
                    g,
                    g.forces.len() as int,
                    ds[j].id,
                ),
            forall|id: Seq<char>| #[trigger]
                premise@.contains_key(id) <==> decision_ids(ds).take(i as int).contains(id),
            forall|id: Seq<char>| #[trigger]
                premise@.contains_key(id) ==> premise@[id]@ == verdict_on(g, id),
    {
        let id = &decisions[i].id;
        proof {
            assert(views(decisions@)[i as int] == decisions@[i as int]@);
            assert(ds[i as int].id == id@);
            assert(lists@[i as int] == list);
            assert(views(list@) == fallen_premises(g, g.forces.len() as int, id@));
            assert(views(list@).len() == list@.len());
            assert(decision_ids(ds).take(i + 1) =~= decision_ids(ds).take(i as int).push(id@));
            lemma_push_contains(decision_ids(ds).take(i as int), id@);
        }
        let verdict = if list.len() == 0 {
            PremiseVerdict::Fresh
        } else {
            PremiseVerdict::Stale { fallen: sort(list) }
        };
        assert(verdict@ == verdict_on(g, id@));
        premise.insert(id.clone(), verdict);
        i = i + 1;
    }
    proof {
        assert(decisions.len() == ds.len()) by {
            assert(views(decisions@).len() == decisions@.len());
        }
        assert(decision_ids(ds).take(ds.len() as int) =~= decision_ids(ds));
    }
    let superseded = find_superseded(&decisions, Ghost(g));
    let frontier = find_frontier(&decisions, &superseded, Ghost(g));
    let verdicts = Verdicts { premise, superseded, frontier };
    assert(verdicts@.premise =~= judged(g).premise);
    verdicts
}

proof fn lemma_least(g: GraphView, x: Seq<char>, y: Seq<char>, n: nat)
    requires
        rests(g, x, y, n),
    ensures
        is_distance(g, x, y, distance(g, x, y)),
        distance(g, x, y) <= n,
    decreases n,
{
    if exists|m: nat| m < n && rests(g, x, y, m) {
        let m = choose|m: nat| m < n && rests(g, x, y, m);
        lemma_least(g, x, y, m);
    } else {
        assert(is_distance(g, x, y, n));
        lemma_distance(g, x, y, n);
    }
}

/// What rests on something does so at the distance given, and not nearer.
pub proof fn law_distance_is_least(g: GraphView, x: Seq<char>, y: Seq<char>)
    requires
        rests_on(g, x, y),
    ensures
        is_distance(g, x, y, distance(g, x, y)),
{
    let n = choose|n: nat| rests(g, x, y, n);
    lemma_least(g, x, y, n);
}

/// A decision that cites a force, or a force that depends on it, lies one step
/// away from it.
pub proof fn law_direct_reference_is_one_step(g: GraphView, x: Seq<char>, y: Seq<char>)
    requires
        bears(g, x, y),
        x != y,
    ensures
        rests_on(g, x, y),
        distance(g, x, y) == 1,
{
    assert(rests(g, x, x, 0));
    assert(rests(g, x, y, 1));
    lemma_least(g, x, y, 1);
    assert(!rests(g, x, y, 0));
}

/// Whether the force at the place `k` makes the decision `id` stale.
pub open spec fn fells(g: GraphView, k: int, id: Seq<char>) -> bool {
    &&& g.forces[k].is_fallen()
    &&& g.lookup(id) is Some
    &&& g.lookup(id)->0 is Decision
    &&& rests_on(g, g.forces[k].id, id)
}

/// How a force that fell is reported to a decision that rests on it.
pub open spec fn fall_of(g: GraphView, k: int, id: Seq<char>) -> FallenPremiseView {
    FallenPremiseView {
        force_id: g.forces[k].id,
        status: g.forces[k].current_status(),
        distance: distance(g, g.forces[k].id, id),
        since: g.forces[k].status_log.last().since,
    }
}

proof fn lemma_fallen(g: GraphView, n: int, id: Seq<char>, x: FallenPremiseView)
    requires
        0 <= n <= g.forces.len(),
    ensures
        fallen_premises(g, n, id).contains(x) <==> exists|k: int|
            0 <= k < n && #[trigger] fells(g, k, id) && x == fall_of(g, k, id),
    decreases n,
{
    if n > 0 {
        lemma_fallen(g, n - 1, id, x);
        let before = fallen_premises(g, n - 1, id);
        lemma_push_contains(before, fall_of(g, n - 1, id));
        if fells(g, n - 1, id) {
            assert(fallen_premises(g, n, id) == before.push(fall_of(g, n - 1, id)));
        }
    }
}

/// A decision is stale exactly when it rests, directly or over others, on a
/// force that fell.
pub proof fn law_stale_iff_rests_on_fallen(g: GraphView, id: Seq<char>)
    ensures
        verdict_on(g, id) is Stale <==> exists|k: int|
            0 <= k < g.forces.len() && #[trigger] fells(g, k, id),
{
    let n = g.forces.len() as int;
    let all = fallen_premises(g, n, id);
    if all.len() > 0 {
        lemma_fallen(g, n, id, all[0]);
        assert(all.contains(all[0]));
    }
    if exists|k: int| 0 <= k < n && #[trigger] fells(g, k, id) {
        let k = choose|k: int| 0 <= k < n && #[trigger] fells(g, k, id);
        lemma_fallen(g, n, id, fall_of(g, k, id));
    }
}

/// The fallen forces reported to a stale decision are all those that it rests
/// on, each at its least distance, the worst status and the nearest first.
pub proof fn law_fallen_premises_are_exact(g: GraphView, id: Seq<char>, x: FallenPremiseView)
    requires
        verdict_on(g, id) is Stale,
    ensures
        verdict_on(g, id)->fallen.contains(x) <==> exists|k: int|
            0 <= k < g.forces.len() && #[trigger] fells(g, k, id) && x == fall_of(g, k, id),
        in_order::<FallenPremise>(verdict_on(g, id)->fallen),
{
    let all = fallen_premises(g, g.forces.len() as int, id);
    lemma_fallen(g, g.forces.len() as int, id, x);
    lemma_sorted_contains::<FallenPremise>(all, x);
    law_sorted_in_order::<FallenPremise>(all);
}

/// Whether two graphs have the same records with the same references.
pub open spec fn same_references(g: GraphView, h: GraphView) -> bool {
    &&& g.decisions == h.decisions
    &&& g.forces.len() == h.forces.len()
    &&& forall|i: int|
        0 <= i < g.forces.len() ==> (#[trigger] g.forces[i]).id == h.forces[i].id
            && g.forces[i].depends_on == h.forces[i].depends_on
}

proof fn lemma_same_bears(g: GraphView, h: GraphView, x: Seq<char>, y: Seq<char>)
    requires
        same_references(g, h),
        bears(g, x, y),
    ensures
        bears(h, x, y),
{
    if exists|i: int|
        0 <= i < g.forces.len() && (#[trigger] g.forces[i]).id == y
            && g.forces[i].depends_on.contains(x) {
        let i = choose|i: int|
            0 <= i < g.forces.len() && (#[trigger] g.forces[i]).id == y
                && g.forces[i].depends_on.contains(x);
        assert(h.forces[i].id == y && h.forces[i].depends_on.contains(x));
    }
}

proof fn lemma_same_rests(g: GraphView, h: GraphView, x: Seq<char>, y: Seq<char>, n: nat)
    requires
        same_references(g, h),
        rests(g, x, y, n),
    ensures
        rests(h, x, y, n),
    decreases n,
{
    if n > 0 {
        let z = choose|z: Seq<char>| rests(g, x, z, (n - 1) as nat) && #[trigger] bears(g, z, y);
        lemma_same_rests(g, h, x, z, (n - 1) as nat);
        lemma_same_bears(g, h, z, y);
    }
}

proof fn lemma_same_lookup(g: GraphView, h: GraphView, id: Seq<char>, n: int)
    requires
        same_references(g, h),
        0 <= n <= g.records().len(),
    ensures
        match (last_with(g.records().take(n), id), last_with(h.records().take(n), id)) {
            (None, None) => true,
            (Some(a), Some(b)) => a is Decision <==> b is Decision,
            _ => false,
        },
    decreases n,
{
    let a = g.records().take(n);
    let b = h.records().take(n);
    if n > 0 {
        lemma_same_lookup(g, h, id, n - 1);
        assert(a.drop_last() =~= g.records().take(n - 1));
        assert(b.drop_last() =~= h.records().take(n - 1));
        let i = n - 1 - g.decisions.len();
        if i >= 0 {
            assert(g.forces[i].id == h.forces[i].id);
        }
    }
}

proof fn lemma_same_distance(g: GraphView, h: GraphView, x: Seq<char>, y: Seq<char>)
    requires
        same_references(g, h),
        rests_on(g, x, y),
    ensures
        rests_on(h, x, y),
        distance(h, x, y) == distance(g, x, y),
{
    assert(same_references(h, g)) by {
        assert forall|i: int| 0 <= i < h.forces.len() implies (#[trigger] h.forces[i]).id
            == g.forces[i].id && h.forces[i].depends_on == g.forces[i].depends_on by {
            assert(g.forces[i].id == h.forces[i].id);
        }
    }
    law_distance_is_least(g, x, y);
    let n = distance(g, x, y);
    lemma_same_rests(g, h, x, y, n);
    law_distance_is_least(h, x, y);
    let m = distance(h, x, y);
    lemma_same_rests(h, g, x, y, m);
    if m < n {
        assert(!rests(g, x, y, m));
    }
    if n < m {
        assert(!rests(h, x, y, n));
    }
}

/// Whether a list of fallen premises tells of a force at a distance.
pub open spec fn tells_of_fall(fallen: Seq<FallenPremiseView>, force_id: Seq<char>, n: nat) -> bool {
    exists|p: FallenPremiseView| #[trigger]
        fallen.contains(p) && p.force_id == force_id && p.distance == n
}

/// When more forces fall, no stale decision becomes fresh, and it keeps every
/// fallen force that it had, at the same distance.
pub proof fn law_staleness_is_monotone(g: GraphView, h: GraphView, id: Seq<char>)
    requires
        same_references(g, h),
        forall|i: int|
            0 <= i < g.forces.len() && (#[trigger] g.forces[i]).is_fallen()
                ==> h.forces[i].is_fallen(),
        verdict_on(g, id) is Stale,
    ensures
        verdict_on(h, id) is Stale,
        forall|p: FallenPremiseView| #[trigger]
            verdict_on(g, id)->fallen.contains(p) ==> tells_of_fall(
                verdict_on(h, id)->fallen,
                p.force_id,
                p.distance,
            ),
{
    law_stale_iff_rests_on_fallen(g, id);
    law_stale_iff_rests_on_fallen(h, id);
    let k = choose|k: int| 0 <= k < g.forces.len() && #[trigger] fells(g, k, id);
    assert(g.forces[k].is_fallen());
    let n = choose|n: nat| rests(g, g.forces[k].id, id, n);
    lemma_same_rests(g, h, g.forces[k].id, id, n);
    lemma_same_lookup(g, h, id, g.records().len() as int);
    assert(g.records().take(g.records().len() as int) =~= g.records());
    assert(h.records().take(g.records().len() as int) =~= h.records());
    assert(fells(h, k, id));
    assert forall|p: FallenPremiseView| #[trigger]
        verdict_on(g, id)->fallen.contains(p) implies tells_of_fall(
        verdict_on(h, id)->fallen,
        p.force_id,
        p.distance,
    ) by {
        law_fallen_premises_are_exact(g, id, p);
        let j = choose|j: int|
            0 <= j < g.forces.len() && #[trigger] fells(g, j, id) && p == fall_of(g, j, id);
        assert(g.forces[j].is_fallen());
        lemma_same_distance(g, h, g.forces[j].id, id);
        assert(fells(h, j, id));
        let q = fall_of(h, j, id);
        law_fallen_premises_are_exact(h, id, q);
        assert(verdict_on(h, id)->fallen.contains(q));
    }
}

/// Where a force falls and nothing else of the references changes, every
/// decision that rests on it is stale, however many steps away it lies.
pub proof fn law_a_fall_reaches_all_that_rests_on_it(
    g: GraphView,
    h: GraphView,
    k: int,
    id: Seq<char>,
)
    requires
        same_references(g, h),
        0 <= k < g.forces.len(),
        h.forces[k].is_fallen(),
        g.lookup(id) is Some,
        g.lookup(id)->0 is Decision,
        rests_on(g, g.forces[k].id, id),
    ensures
        verdict_on(h, id) is Stale,
{
    law_stale_iff_rests_on_fallen(h, id);
    let n = choose|n: nat| rests(g, g.forces[k].id, id, n);
    assert(g.forces[k].id == h.forces[k].id);
    lemma_same_rests(g, h, g.forces[k].id, id, n);
    lemma_same_lookup(g, h, id, g.records().len() as int);
    assert(g.records().take(g.records().len() as int) =~= g.records());
    assert(h.records().take(g.records().len() as int) =~= h.records());
    assert(fells(h, k, id));
}

proof fn lemma_present(g: GraphView, n: int)
    requires
        0 <= n <= g.decisions.len(),
    ensures
        present_ids(g, n).no_duplicates(),
        forall|id: Seq<char>| #[trigger]
            present_ids(g, n).contains(id) <==> decision_ids(g.decisions).take(n).contains(id)
                && !is_superseded(g, id),
    decreases n,
{
    let ids = decision_ids(g.decisions);
    if n > 0 {
        lemma_present(g, n - 1);
        let before = present_ids(g, n - 1);
        let id = g.decisions[n - 1].id;
        assert(ids.take(n) =~= ids.take(n - 1).push(id));
        lemma_push_contains(ids.take(n - 1), id);
        lemma_push_contains(before, id);
    }
}

/// The frontier holds the decisions that are not superseded, each once, in the
/// order of their ids.
pub proof fn law_frontier_is_the_present(g: GraphView)
    ensures
        forall|id: Seq<char>| #[trigger]
            judged(g).frontier.contains(id) <==> decision_ids(g.decisions).contains(id)
                && !judged(g).superseded.contains(id),
        forall|i: int, j: int|
            0 <= i < j < judged(g).frontier.len() ==> text_le(
                #[trigger] judged(g).frontier[i],
                #[trigger] judged(g).frontier[j],
            ) && judged(g).frontier[i] != judged(g).frontier[j],
{
    let n = g.decisions.len() as int;
    let ids = present_ids(g, n);
    let frontier = judged(g).frontier;
    lemma_present(g, n);
    assert(decision_ids(g.decisions).take(n) =~= decision_ids(g.decisions));
    law_sorted_in_order::<String>(ids);
    law_sorted_rearranges::<String>(ids);
    assert forall|id: Seq<char>| #[trigger] frontier.contains(id) <==> decision_ids(
        g.decisions,
    ).contains(id) && !judged(g).superseded.contains(id) by {
        lemma_sorted_contains::<String>(ids, id);
    }
    ids.lemma_multiset_has_no_duplicates();
    frontier.lemma_multiset_has_no_duplicates_conv();
    assert forall|i: int, j: int| 0 <= i < j < frontier.len() implies text_le(
        #[trigger] frontier[i],
        #[trigger] frontier[j],
    ) && frontier[i] != frontier[j] by {
        assert(in_order::<String>(frontier));
        assert(<String as Ordered>::le(frontier[i], frontier[j]));
    }
}

/// The verdicts do not depend on the order in which the files were read, if no
/// two records have the same path.
pub proof fn law_verdicts_ignore_order(
    a: Seq<ParsedView>,
    b: Seq<ParsedView>,
    la: LinkedView,
    lb: LinkedView,
)
    requires
        links(a, la),
        links(b, lb),
        a.to_multiset() == b.to_multiset(),
        distinct_paths(a),
    ensures
        judged(GraphView { decisions: la.decisions, forces: la.forces }) == judged(
            GraphView { decisions: lb.decisions, forces: lb.forces },
        ),
{
    law_link_ignores_order(a, b);
}

/// An id is superseded exactly where a decision with it is deprecated, or where
/// a decision with another id names it among those that it supersedes. All
/// other decisions, and nothing else, are the frontier.
pub proof fn law_superseded_are_deprecated_or_named(g: GraphView, id: Seq<char>)
    ensures
        judged(g).superseded.contains(id) <==> (exists|i: int|
            0 <= i < g.decisions.len() && (#[trigger] g.decisions[i]).id == id
                && g.decisions[i].status == DecisionStatus::Deprecated) || (exists|i: int|
            0 <= i < g.decisions.len() && (#[trigger] g.decisions[i]).id != id
                && g.decisions[i].supersedes.contains(id)),
        judged(g).frontier.contains(id) <==> (exists|i: int|
            0 <= i < g.decisions.len() && (#[trigger] g.decisions[i]).id == id) && forall|i: int|
            0 <= i < g.decisions.len() ==> if (#[trigger] g.decisions[i]).id == id {
                g.decisions[i].status != DecisionStatus::Deprecated
            } else {
                !g.decisions[i].supersedes.contains(id)
            },
{
    law_frontier_is_the_present(g);
    let ids = decision_ids(g.decisions);
    if ids.contains(id) {
        let i = choose|i: int| 0 <= i < ids.len() && ids[i] == id;
        assert(g.decisions[i].id == id);
    }
    assert forall|i: int| 0 <= i < g.decisions.len() && (#[trigger] g.decisions[i]).id == id implies
        ids.contains(id) by {
        assert(ids[i] == id);
    }
    if is_superseded(g, id) {
        let i = choose|i: int| 0 <= i < g.decisions.len() && supersedes(#[trigger] g.decisions[i], id);
        assert(g.decisions[i].id == id || g.decisions[i].id != id);
    }
    assert forall|i: int|
        0 <= i < g.decisions.len() && (if (#[trigger] g.decisions[i]).id == id {
            g.decisions[i].status == DecisionStatus::Deprecated
        } else {
            g.decisions[i].supersedes.contains(id)
        }) implies is_superseded(g, id) by {
        assert(supersedes(g.decisions[i], id));
    }
}

/// A decision that supersedes others takes every one of them out of the
/// present, wherever in its list they stand.
pub proof fn law_whatever_is_superseded_leaves_the_frontier(g: GraphView, i: int, j: int, k: int)
    requires
        0 <= i < g.decisions.len(),
        0 <= j < g.decisions.len(),
        g.decisions[i].id != g.decisions[j].id,
        0 <= k < g.decisions[j].supersedes.len(),
        g.decisions[j].supersedes[k] == g.decisions[i].id,
    ensures
        judged(g).superseded.contains(g.decisions[i].id),
        !judged(g).frontier.contains(g.decisions[i].id),
{
    let id = g.decisions[i].id;
    law_superseded_are_deprecated_or_named(g, id);
    assert(g.decisions[j].supersedes.contains(id));
    assert(g.decisions[j].id != id);
}

/// Whether a record with the id `y` names `x` as something that it rests on: a
/// force among its dependencies, or a decision among its citations.
pub open spec fn names_as_premise(g: GraphView, x: Seq<char>, y: Seq<char>) -> bool {
    ||| exists|i: int|
        0 <= i < g.forces.len() && (#[trigger] g.forces[i]).id == y
            && g.forces[i].depends_on.contains(x)
    ||| exists|i: int|
        0 <= i < g.decisions.len() && (#[trigger] g.decisions[i]).id == y
            && g.decisions[i].cites.contains(x)
}

/// Whether the record at the place `i` of a chain is named by the next one.
pub open spec fn is_link(g: GraphView, w: Seq<Seq<char>>, i: int) -> bool {
    names_as_premise(g, w[i], w[i + 1])
}

/// Whether a list of ids leads from `x` to `y`, each named as a premise by the
/// next.
pub open spec fn is_chain(g: GraphView, x: Seq<char>, y: Seq<char>, w: Seq<Seq<char>>) -> bool {
    &&& w.len() > 0
    &&& w[0] == x
    &&& w.last() == y
    &&& forall|i: int| 0 <= i < w.len() - 1 ==> #[trigger] is_link(g, w, i)
}

proof fn lemma_chain_of(g: GraphView, x: Seq<char>, y: Seq<char>, n: nat) -> (w: Seq<Seq<char>>)
    requires
        rests(g, x, y, n),
    ensures
        is_chain(g, x, y, w),
        w.len() == n + 1,
    decreases n,
{
    if n == 0 {
        seq![x]
    } else {
        let z = choose|z: Seq<char>| rests(g, x, z, (n - 1) as nat) && #[trigger] bears(g, z, y);
        let v = lemma_chain_of(g, x, z, (n - 1) as nat);
        let w = v.push(y);
        assert forall|i: int| 0 <= i < w.len() - 1 implies #[trigger] is_link(g, w, i) by {
            if i < v.len() - 1 {
                assert(is_link(g, v, i));
            } else {
                assert(names_as_premise(g, z, y));
            }
        }
        w
    }
}

pub proof fn lemma_of_chain(g: GraphView, x: Seq<char>, y: Seq<char>, w: Seq<Seq<char>>)
    requires
        is_chain(g, x, y, w),
    ensures
        rests(g, x, y, (w.len() - 1) as nat),
    decreases w.len(),
{
    if w.len() > 1 {
        let v = w.drop_last();
        let z = v.last();
        assert forall|i: int| 0 <= i < v.len() - 1 implies #[trigger] is_link(g, v, i) by {
            assert(is_link(g, w, i));
        }
        lemma_of_chain(g, x, z, v);
        assert(is_link(g, w, w.len() - 2));
        assert(bears(g, z, y));
    }
}

proof fn lemma_fallen_apart(g: GraphView, n: int, id: Seq<char>)
    requires
        0 <= n <= g.forces.len(),
        distinct_ids(g),
    ensures
        fallen_premises(g, n, id).no_duplicates(),
    decreases n,
{
    if n > 0 {
        lemma_fallen_apart(g, n - 1, id);
        let before = fallen_premises(g, n - 1, id);
        let x = fall_of(g, n - 1, id);
        if before.contains(x) {
            lemma_fallen(g, n - 1, id, x);
            let k = choose|k: int|
                0 <= k < n - 1 && #[trigger] fells(g, k, id) && x == fall_of(g, k, id);
            lemma_force_places(g, k, n - 1);
        }
    }
}

proof fn lemma_force_places(g: GraphView, j: int, k: int)
    requires
        distinct_ids(g),
        0 <= j < g.forces.len(),
        0 <= k < g.forces.len(),
        g.forces[j].id == g.forces[k].id,
    ensures
        j == k,
{
    let n = g.decisions.len() as int;
    assert(g.records()[n + j] == RecordView::Force(g.forces[j]));
    assert(g.records()[n + k] == RecordView::Force(g.forces[k]));
}

proof fn lemma_decision_found(g: GraphView, i: int)
    requires
        distinct_ids(g),
        0 <= i < g.decisions.len(),
    ensures
        g.lookup(g.decisions[i].id) == Some(RecordView::Decision(g.decisions[i])),
{
    assert(g.records()[i] == RecordView::Decision(g.decisions[i]));
    law_lookup_finds(g, i);
}

/// Every decision gets a verdict, and nothing else does.
pub proof fn law_every_decision_is_judged(g: GraphView, id: Seq<char>)
    ensures
        judged(g).premise.contains_key(id) <==> exists|i: int|
            0 <= i < g.decisions.len() && (#[trigger] g.decisions[i]).id == id,
{
    let ids = decision_ids(g.decisions);
    if ids.contains(id) {
        let i = choose|i: int| 0 <= i < ids.len() && ids[i] == id;
        assert(g.decisions[i].id == id);
    }
    assert forall|i: int| 0 <= i < g.decisions.len() && (#[trigger] g.decisions[i]).id == id implies
        ids.contains(id) by {
        assert(ids[i] == id);
    }
}

/// A decision is told of a force exactly where the last status of the force is
/// changed or retired and a chain of references leads from it to the decision.
/// It is told so once, with that status, the day on which it was set, and the
/// length of the shortest chain.
pub proof fn law_stale_where_a_chain_leads_to_a_fallen_force(g: GraphView, i: int, k: int)
    requires
        distinct_ids(g),
        0 <= i < g.decisions.len(),
        0 <= k < g.forces.len(),
    ensures
        ({
            let id = g.decisions[i].id;
            let f = g.forces[k];
            let last = f.status_log.last();
            let v = judged(g).premise[id];
            &&& (v is Stale && exists|m: int|
                0 <= m < v->fallen.len() && (#[trigger] v->fallen[m]).force_id == f.id) <==> (
            last.status == ForceStatus::Changed || last.status == ForceStatus::Retired)
                && exists|w: Seq<Seq<char>>| is_chain(g, f.id, id, w)
            &&& v is Stale ==> forall|m: int|
                0 <= m < v->fallen.len() && (#[trigger] v->fallen[m]).force_id == f.id ==> {
                    &&& v->fallen[m].status == last.status
                    &&& v->fallen[m].since == last.since
                    &&& exists|w: Seq<Seq<char>>| #[trigger]
                        is_chain(g, f.id, id, w) && w.len() == v->fallen[m].distance + 1
                    &&& forall|w: Seq<Seq<char>>| #[trigger]
                        is_chain(g, f.id, id, w) ==> w.len() >= v->fallen[m].distance + 1
                }
            &&& v is Stale ==> forall|m: int, n: int|
                0 <= m < n < v->fallen.len() ==> (#[trigger] v->fallen[m]).force_id != (
                #[trigger] v->fallen[n]).force_id
        }),
{
    let id = g.decisions[i].id;
    let f = g.forces[k];
    law_every_decision_is_judged(g, id);
    assert(g.decisions[i].id == id);
    let v = judged(g).premise[id];
    assert(v == verdict_on(g, id));
    lemma_decision_found(g, i);
    law_stale_iff_rests_on_fallen(g, id);
    if exists|w: Seq<Seq<char>>| is_chain(g, f.id, id, w) {
        let w = choose|w: Seq<Seq<char>>| is_chain(g, f.id, id, w);
        lemma_of_chain(g, f.id, id, w);
        if f.is_fallen() {
            assert(fells(g, k, id));
            law_fallen_premises_are_exact(g, id, fall_of(g, k, id));
            let m = choose|m: int| 0 <= m < v->fallen.len() && v->fallen[m] == fall_of(g, k, id);
            assert(v->fallen[m].force_id == f.id);
        }
    }
    if v is Stale {
        let all = fallen_premises(g, g.forces.len() as int, id);
        let told = v->fallen;
        assert forall|m: int| 0 <= m < told.len() && (#[trigger] told[m]).force_id == f.id implies
            told[m] == fall_of(g, k, id) && fells(g, k, id) by {
            law_fallen_premises_are_exact(g, id, told[m]);
            assert(told.contains(told[m]));
            let j = choose|j: int|
                0 <= j < g.forces.len() && #[trigger] fells(g, j, id) && told[m] == fall_of(g, j, id);
            lemma_force_places(g, j, k);
        }
        assert forall|m: int| 0 <= m < told.len() && (#[trigger] told[m]).force_id == f.id implies {
            &&& f.is_fallen()
            &&& exists|w: Seq<Seq<char>>| #[trigger]
                is_chain(g, f.id, id, w) && w.len() == told[m].distance + 1
            &&& forall|w: Seq<Seq<char>>| #[trigger]
                is_chain(g, f.id, id, w) ==> w.len() >= told[m].distance + 1
        } by {
            law_distance_is_least(g, f.id, id);
            let w = lemma_chain_of(g, f.id, id, distance(g, f.id, id));
            assert(is_chain(g, f.id, id, w));
            assert forall|w: Seq<Seq<char>>| #[trigger] is_chain(g, f.id, id, w) implies w.len()
                >= told[m].distance + 1 by {
                lemma_of_chain(g, f.id, id, w);
            }
        }
        lemma_fallen_apart(g, g.forces.len() as int, id);
        law_sorted_rearranges::<FallenPremise>(all);
        all.lemma_multiset_has_no_duplicates();
        told.lemma_multiset_has_no_duplicates_conv();
        assert forall|m: int, n: int| 0 <= m < n < told.len() implies (
        #[trigger] told[m]).force_id != (#[trigger] told[n]).force_id by {
            law_fallen_premises_are_exact(g, id, told[m]);
            law_fallen_premises_are_exact(g, id, told[n]);
            assert(told.contains(told[m]) && told.contains(told[n]));
            let a = choose|a: int|
                0 <= a < g.forces.len() && #[trigger] fells(g, a, id) && told[m] == fall_of(g, a, id);
            let b = choose|b: int|
                0 <= b < g.forces.len() && #[trigger] fells(g, b, id) && told[n] == fall_of(g, b, id);
            if told[m].force_id == told[n].force_id {
                lemma_force_places(g, a, b);
            }
        }
    }
}

/// A stale verdict tells of at least one force, of nothing but forces of the
/// graph, and of retired ones first, then of the nearest, and then in the order
/// of their ids.
pub proof fn law_verdicts_tell_of_forces_in_order(g: GraphView, i: int)
    requires
        0 <= i < g.decisions.len(),
        judged(g).premise[g.decisions[i].id] is Stale,
    ensures
        ({
            let told = judged(g).premise[g.decisions[i].id]->fallen;
            &&& told.len() > 0
            &&& forall|m: int|
                0 <= m < told.len() ==> exists|k: int|
                    0 <= k < g.forces.len() && (#[trigger] g.forces[k]).id == (
                    #[trigger] told[m]).force_id
            &&& forall|m: int, n: int|
                0 <= m < n < told.len() ==> {
                    let a = #[trigger] told[m];
                    let b = #[trigger] told[n];
                    if a.status != b.status {
                        a.status == ForceStatus::Retired && b.status == ForceStatus::Changed
                    } else if a.distance != b.distance {
                        a.distance < b.distance
                    } else {
                        text_le(a.force_id, b.force_id)
                    }
                }
        }),
{
    let id = g.decisions[i].id;
    law_every_decision_is_judged(g, id);
    assert(g.decisions[i].id == id);
    assert(judged(g).premise[id] == verdict_on(g, id));
    let told = verdict_on(g, id)->fallen;
    let all = fallen_premises(g, g.forces.len() as int, id);
    law_sorted_rearranges::<FallenPremise>(all);
    law_sorted_in_order::<FallenPremise>(all);
    assert forall|m: int| 0 <= m < told.len() implies (exists|k: int|
        0 <= k < g.forces.len() && (#[trigger] g.forces[k]).id == (#[trigger] told[m]).force_id)
        && told[m].status != ForceStatus::Holds by {
        law_fallen_premises_are_exact(g, id, told[m]);
        assert(told.contains(told[m]));
        let k = choose|k: int|
            0 <= k < g.forces.len() && #[trigger] fells(g, k, id) && told[m] == fall_of(g, k, id);
        assert(g.forces[k].id == told[m].force_id);
    }
    assert forall|m: int, n: int| 0 <= m < n < told.len() implies {
        let a = #[trigger] told[m];
        let b = #[trigger] told[n];
        if a.status != b.status {
            a.status == ForceStatus::Retired && b.status == ForceStatus::Changed
        } else if a.distance != b.distance {
            a.distance < b.distance
        } else {
            text_le(a.force_id, b.force_id)
        }
    } by {
        assert(<FallenPremise as Ordered>::le(told[m], told[n]));
        assert(told[m].status != ForceStatus::Holds && told[n].status != ForceStatus::Holds);
    }
}

} // verus!
