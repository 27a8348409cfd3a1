//! The graph of records: who refers to whom.
use vstd::prelude::*;
use crate::linker::Linked;
use crate::order::{
    law_sorted_in_order, law_sorted_rearranges, lemma_sorted_contains, sort, sorted, text_le, Ordered,
};
use crate::record::{Decision, DecisionView, Force, ForceView};
use crate::text::{copy_texts, lemma_push_contains, lemma_sum_contains, views};
use vstd::hash_map::StringHashMap;

verus! {

/// A record of the graph.
pub enum Record {
    Decision(Decision),
    Force(Force),
}

/// What a [`Record`] stands for.
#[verifier::ext_equal]
pub enum RecordView {
    Decision(DecisionView),
    Force(ForceView),
}

impl View for Record {
    type V = RecordView;

    open spec fn view(&self) -> RecordView {
        match self {
            Record::Decision(d) => RecordView::Decision(d@),
            Record::Force(f) => RecordView::Force(f@),
        }
    }
}

impl RecordView {
    /// The id of the record.
    pub open spec fn id(self) -> Seq<char> {
        match self {
            RecordView::Decision(d) => d.id,
            RecordView::Force(f) => f.id,
        }
    }
}

/// What a [`Graph`] stands for: its decisions and its forces.
#[verifier::ext_equal]
pub struct GraphView {
    pub decisions: Seq<DecisionView>,
    pub forces: Seq<ForceView>,
}

impl GraphView {
    /// All records, decisions first.
    pub open spec fn records(self) -> Seq<RecordView> {
        self.decisions.map_values(|d: DecisionView| RecordView::Decision(d))
            + self.forces.map_values(|f: ForceView| RecordView::Force(f))
    }

    /// The record with the given id; of several, the last.
    pub open spec fn lookup(self, id: Seq<char>) -> Option<RecordView> {
        last_with(self.records(), id)
    }

    /// The decisions that cite the given id, in order; one that cites it twice
    /// stands there twice.
    pub open spec fn cited_by(self, id: Seq<char>) -> Seq<Seq<char>> {
        sorted::<String>(
            referrers(self.decisions.map_values(|d: DecisionView| (d.id, d.cites)), id),
        )
    }

    /// The forces that depend on the given id, in order.
    pub open spec fn depended_by(self, id: Seq<char>) -> Seq<Seq<char>> {
        sorted::<String>(
            referrers(self.forces.map_values(|f: ForceView| (f.id, f.depends_on)), id),
        )
    }

    /// The decisions that supersede the given id, in order.
    pub open spec fn superseded_by(self, id: Seq<char>) -> Seq<Seq<char>> {
        sorted::<String>(
            referrers(self.decisions.map_values(|d: DecisionView| (d.id, d.supersedes)), id),
        )
    }
}

/// The last record with the given id.
pub open spec fn last_with(records: Seq<RecordView>, id: Seq<char>) -> Option<RecordView>
    decreases records.len(),
{
    if records.len() == 0 {
        None
    } else if records.last().id() == id {
        Some(records.last())
    } else {
        last_with(records.drop_last(), id)
    }
}

/// `from`, as often as `id` stands among the targets.
pub open spec fn mentions(from: Seq<char>, targets: Seq<Seq<char>>, id: Seq<char>) -> Seq<Seq<char>>
    decreases targets.len(),
{
    if targets.len() == 0 {
        Seq::empty()
    } else {
        let before = mentions(from, targets.drop_last(), id);
        if targets.last() == id {
            before.push(from)
        } else {
            before
        }
    }
}

/// Those of the rows, each an id with its targets, that have `id` for a target.
pub open spec fn referrers(rows: Seq<(Seq<char>, Seq<Seq<char>>)>, id: Seq<char>) -> Seq<Seq<char>>
    decreases rows.len(),
{
    if rows.len() == 0 {
        Seq::empty()
    } else {
        referrers(rows.drop_last(), id) + mentions(rows.last().0, rows.last().1, id)
    }
}

/// An index of references: for each id, who refers to it.
struct RefIndex {
    slots: StringHashMap<usize>,
    rows: Vec<Vec<String>>,
}

impl RefIndex {
    spec fn inv(self) -> bool {
        &&& forall|id: Seq<char>| #[trigger]
            self.slots@.contains_key(id) ==> self.slots@[id] < self.rows.len()
        &&& forall|a: Seq<char>, b: Seq<char>| #[trigger]
            self.slots@.contains_key(a) && #[trigger] self.slots@.contains_key(b) && a != b
                ==> self.slots@[a] != self.slots@[b]
    }

    spec fn at(self, id: Seq<char>) -> Seq<Seq<char>> {
        if self.slots@.contains_key(id) {
            views(self.rows@[self.slots@[id] as int]@)
        } else {
            Seq::empty()
        }
    }

    fn new() -> (r: Self)
        ensures
            r.inv(),
            forall|id: Seq<char>| #[trigger] r.at(id) == Seq::<Seq<char>>::empty(),
    {
        RefIndex { slots: StringHashMap::new(), rows: Vec::new() }
    }

    fn note(&mut self, id: &String, from: &String)
        requires
            old(self).inv(),
        ensures
            final(self).inv(),
            forall|x: Seq<char>| #[trigger]
                final(self).at(x) == (if x == id@ {
                    old(self).at(x).push(from@)
                } else {
                    old(self).at(x)
                }),
    {
        let ghost first = *self;
        let found = match self.slots.get(id.as_str()) {
            Some(slot) => Some(*slot),
            None => None,
        };
        match found {
            Some(slot) => {
                let ghost row = self.rows@[slot as int]@;
                self.rows[slot].push(from.clone());
                proof {
                    assert forall|x: Seq<char>| #[trigger]
                        self.at(x) == (if x == id@ {
                            first.at(x).push(from@)
                        } else {
                            first.at(x)
                        }) by {
                        if x == id@ {
                            assert(views(self.rows@[slot as int]@) =~= views(row).push(from@));
                        } else if self.slots@.contains_key(x) {
                            assert(self.slots@[x] != slot);
                        }
                    }
                }
            },
            None => {
                let slot: usize = self.rows.len();
                let mut row: Vec<String> = Vec::new();
                row.push(from.clone());
                assert(views(row@) =~= Seq::<Seq<char>>::empty().push(from@));
                self.rows.push(row);
                self.slots.insert(id.clone(), slot);
                assert forall|x: Seq<char>| #[trigger]
                    self.at(x) == (if x == id@ {
                        first.at(x).push(from@)
                    } else {
                        first.at(x)
                    }) by {
                    if x != id@ && self.slots@.contains_key(x) {
                        assert(first.slots@.contains_key(x));
                        assert(first.slots@[x] < first.rows.len());
                    }
                }
            },
        }
    }

    /// Notes all references of one record.
    fn note_all(&mut self, ids: &Vec<String>, from: &String)
        requires
            old(self).inv(),
        ensures
            final(self).inv(),
            forall|x: Seq<char>| #[trigger]
                final(self).at(x) == old(self).at(x) + mentions(from@, views(ids@), x),
    {
        let ghost first = *self;
        let ghost ts = views(ids@);
        assert forall|x: Seq<char>| #[trigger]
            self.at(x) == first.at(x) + mentions(from@, ts.take(0), x) by {
            assert(first.at(x) + mentions(from@, ts.take(0), x) =~= first.at(x));
        }
        for i in 0..ids.len()
            invariant
                ts == views(ids@),
                self.inv(),
                forall|x: Seq<char>| #[trigger]
                    self.at(x) == first.at(x) + mentions(from@, ts.take(i as int), x),
        {
            let ghost before = *self;
            self.note(&ids[i], from);
            assert forall|x: Seq<char>| #[trigger]
                self.at(x) == first.at(x) + mentions(from@, ts.take(i + 1), x) by {
                assert(ts.take(i + 1).drop_last() =~= ts.take(i as int));
                assert(ts.take(i + 1).last() == ids@[i as int]@);
                assert(before.at(x) == first.at(x) + mentions(from@, ts.take(i as int), x));
                assert((first.at(x) + mentions(from@, ts.take(i as int), x)).push(from@) =~= first.at(x)
                    + mentions(from@, ts.take(i as int), x).push(from@));
            }
        }
        assert(ts.take(ts.len() as int) =~= ts);
    }

    /// The index with each list in order.
    fn in_order(self) -> (r: Self)
        requires
            self.inv(),
        ensures
            r.inv(),
            forall|x: Seq<char>| #[trigger] r.at(x) == sorted::<String>(self.at(x)),
    {
        let ghost all = self;
        let mut rows: Vec<Vec<String>> = Vec::new();
        for row in it: self.rows.into_iter()
            invariant
                it.seq() == all.rows@,
                rows.len() == it.index(),
                forall|j: int|
                    0 <= j < rows.len() ==> views((#[trigger] rows@[j])@) == sorted::<String>(
                        views(all.rows@[j]@),
                    ),
        {
            rows.push(sort(row));
        }
        let r = RefIndex { slots: self.slots, rows };
        assert(sorted::<String>(Seq::empty()) =~= Seq::empty());
        r
    }

    fn get(&self, id: &str) -> (r: Vec<String>)
        requires
            self.inv(),
        ensures
            views(r@) == self.at(id@),
    {
        match self.slots.get(id) {
            Some(slot) => copy_texts(&self.rows[*slot]),
            None => {
                let r: Vec<String> = Vec::new();
                assert(views(r@) =~= Seq::empty());
                r
            },
        }
    }
}

/// Whether a map gives the place of the last record with each id.
spec fn places_last(records: Seq<RecordView>, m: Map<Seq<char>, usize>) -> bool {
    &&& forall|id: Seq<char>| #[trigger]
        m.contains_key(id) ==> m[id] < records.len() && records[m[id] as int].id() == id
    &&& forall|id: Seq<char>, k: int|
        0 <= k < records.len() && (#[trigger] records[k]).id() == id ==> #[trigger] m.contains_key(
            id,
        ) && k <= m[id]
}

proof fn lemma_last_with(records: Seq<RecordView>, id: Seq<char>, i: int)
    requires
        0 <= i < records.len(),
        records[i].id() == id,
        forall|k: int| i < k < records.len() ==> (#[trigger] records[k]).id() != id,
    ensures
        last_with(records, id) == Some(records[i]),
    decreases records.len(),
{
    if i < records.len() - 1 {
        assert(records.last().id() != id);
        lemma_last_with(records.drop_last(), id, i);
    }
}

proof fn lemma_none_with(records: Seq<RecordView>, id: Seq<char>)
    requires
        forall|k: int| 0 <= k < records.len() ==> (#[trigger] records[k]).id() != id,
    ensures
        last_with(records, id) is None,
    decreases records.len(),
{
    if records.len() > 0 {
        assert(records.last().id() != id);
        lemma_none_with(records.drop_last(), id);
    }
}

/// The records of a corpus, found by their ids, and who refers to whom.
pub struct Graph {
    records: Vec<Record>,
    by_id: StringHashMap<usize>,
    cited_by: RefIndex,
    depended_by: RefIndex,
    superseded_by: RefIndex,
    model: Ghost<GraphView>,
}

impl View for Graph {
    type V = GraphView;

    closed spec fn view(&self) -> GraphView {
        self.model@
    }
}

impl Graph {
    #[verifier::type_invariant]
    spec fn inv(self) -> bool {
        &&& views(self.records@) == self.model@.records()
        &&& places_last(self.model@.records(), self.by_id@)
        &&& self.cited_by.inv()
        &&& self.depended_by.inv()
        &&& self.superseded_by.inv()
        &&& forall|id: Seq<char>| #[trigger] self.cited_by.at(id) == self.model@.cited_by(id)
        &&& forall|id: Seq<char>| #[trigger] self.depended_by.at(id) == self.model@.depended_by(id)
        &&& forall|id: Seq<char>| #[trigger]
            self.superseded_by.at(id) == self.model@.superseded_by(id)
    }

    /// Builds the graph of linked records.
    pub fn build(linked: &Linked) -> (graph: Graph)
        ensures
            graph@.decisions == linked@.decisions,
            graph@.forces == linked@.forces,
    {
        let ghost model = GraphView { decisions: linked@.decisions, forces: linked@.forces };
        let ghost cite_rows = model.decisions.map_values(|d: DecisionView| (d.id, d.cites));
        let ghost super_rows = model.decisions.map_values(|d: DecisionView| (d.id, d.supersedes));
        let ghost depend_rows = model.forces.map_values(|f: ForceView| (f.id, f.depends_on));
        let ghost all = model.records();
        let mut records: Vec<Record> = Vec::new();
        let mut by_id: StringHashMap<usize> = StringHashMap::new();
        let mut cited_by = RefIndex::new();
        let mut depended_by = RefIndex::new();
        let mut superseded_by = RefIndex::new();
        for i in 0..linked.decisions.len()
            invariant
                model == (GraphView { decisions: linked@.decisions, forces: linked@.forces }),
                cite_rows == model.decisions.map_values(|d: DecisionView| (d.id, d.cites)),
                super_rows == model.decisions.map_values(|d: DecisionView| (d.id, d.supersedes)),
                all == model.records(),
                records.len() == i,
                forall|j: int| 0 <= j < i ==> (#[trigger] records@[j])@ == all[j],
                places_last(all.take(i as int), by_id@),
                cited_by.inv(),
                superseded_by.inv(),
                forall|id: Seq<char>| #[trigger]
                    cited_by.at(id) == referrers(cite_rows.take(i as int), id),
                forall|id: Seq<char>| #[trigger]
                    superseded_by.at(id) == referrers(super_rows.take(i as int), id),
        {
            let d = &linked.decisions[i];
            proof {
                assert(model.decisions[i as int] == d@);
                assert(all[i as int] == RecordView::Decision(d@));
                assert(cite_rows.take(i + 1).drop_last() =~= cite_rows.take(i as int));
                assert(super_rows.take(i + 1).drop_last() =~= super_rows.take(i as int));
                assert(cite_rows.take(i + 1).last() == (d@.id, d@.cites));
                assert(super_rows.take(i + 1).last() == (d@.id, d@.supersedes));
                lemma_places_push(all, i as int, by_id@);
            }
            by_id.insert(d.id.clone(), i);
            cited_by.note_all(&d.cites, &d.id);
            superseded_by.note_all(&d.supersedes, &d.id);
            records.push(Record::Decision(d.clone()));
        }
        let offset: usize = records.len();
        for i in 0..linked.forces.len()
            invariant
                model == (GraphView { decisions: linked@.decisions, forces: linked@.forces }),
                depend_rows == model.forces.map_values(|f: ForceView| (f.id, f.depends_on)),
                all == model.records(),
                offset == linked.decisions.len(),
                records.len() == offset + i,
                forall|j: int| 0 <= j < offset + i ==> (#[trigger] records@[j])@ == all[j],
                places_last(all.take(offset + i), by_id@),
                depended_by.inv(),
                forall|id: Seq<char>| #[trigger]
                    depended_by.at(id) == referrers(depend_rows.take(i as int), id),
        {
            let f = &linked.forces[i];
            proof {
                assert(model.forces[i as int] == f@);
                assert(all[offset + i] == RecordView::Force(f@));
                assert(depend_rows.take(i + 1).drop_last() =~= depend_rows.take(i as int));
                assert(depend_rows.take(i + 1).last() == (f@.id, f@.depends_on));
                lemma_places_push(all, offset + i, by_id@);
            }
            by_id.insert(f.id.clone(), records.len());
            depended_by.note_all(&f.depends_on, &f.id);
            records.push(Record::Force(f.clone()));
        }
        proof {
            assert(cite_rows.take(cite_rows.len() as int) =~= cite_rows);
            assert(super_rows.take(super_rows.len() as int) =~= super_rows);
            assert(depend_rows.take(depend_rows.len() as int) =~= depend_rows);
            assert(all.take(all.len() as int) =~= all);
            assert(views(records@) =~= all);
        }
        Graph {
            records,
            by_id,
            cited_by: cited_by.in_order(),
            depended_by: depended_by.in_order(),
            superseded_by: superseded_by.in_order(),
            model: Ghost(model),
        }
    }

    /// The record with the given id.
    pub fn get(&self, id: &str) -> (r: Option<&Record>)
        ensures
            match r {
                Some(record) => self@.lookup(id@) == Some(record@),
                None => self@.lookup(id@) is None,
            },
    {
        proof {
            use_type_invariant(self);
        }
        match self.by_id.get(id) {
            Some(at) => {
                proof {
                    lemma_last_with(self@.records(), id@, *at as int);
                    assert(views(self.records@)[*at as int] == self.records@[*at as int]@);
                }
                Some(&self.records[*at])
            },
            None => {
                proof {
                    lemma_none_with(self@.records(), id@);
                }
                None
            },
        }
    }

    /// The decisions that cite a force, in order.
    pub fn cited_by(&self, force_id: &str) -> (r: Vec<String>)
        ensures
            views(r@) == self@.cited_by(force_id@),
    {
        proof {
            use_type_invariant(self);
        }
        self.cited_by.get(force_id)
    }

    /// The forces that depend on a force, in order.
    pub fn depended_by(&self, force_id: &str) -> (r: Vec<String>)
        ensures
            views(r@) == self@.depended_by(force_id@),
    {
        proof {
            use_type_invariant(self);
        }
        self.depended_by.get(force_id)
    }

    /// The decisions that supersede a decision, in order.
    pub fn superseded_by(&self, decision_id: &str) -> (r: Vec<String>)
        ensures
            views(r@) == self@.superseded_by(decision_id@),
    {
        proof {
            use_type_invariant(self);
        }
        self.superseded_by.get(decision_id)
    }

    /// The decisions.
    pub fn decisions(&self) -> (r: Vec<&Decision>)
        ensures
            views(r@) == self@.decisions,
    {
        proof {
            use_type_invariant(self);
        }
        let ghost ds = self@.decisions;
        let mut r: Vec<&Decision> = Vec::new();
        assert(self.records.len() == self@.records().len()) by {
            assert(views(self.records@).len() == self.records.len());
        }
        for i in 0..self.records.len()
            invariant
                views(self.records@) == self@.records(),
                self.records.len() == self@.decisions.len() + self@.forces.len(),
                ds == self@.decisions,
                r.len() == (if i <= ds.len() { i as nat } else { ds.len() }),
                forall|j: int| 0 <= j < r.len() ==> (#[trigger] r@[j])@ == ds[j],
        {
            assert(views(self.records@)[i as int] == self.records@[i as int]@);
            assert(i < ds.len() ==> self@.records()[i as int] == RecordView::Decision(ds[i as int]));
            assert(i >= ds.len() ==> self@.records()[i as int] is Force);
            match &self.records[i] {
                Record::Decision(d) => {
                    r.push(d);
                },
                Record::Force(_) => {},
            }
        }
        assert(views(r@) =~= ds);
        r
    }

    /// The forces.
    pub fn forces(&self) -> (r: Vec<&Force>)
        ensures
            views(r@) == self@.forces,
    {
        proof {
            use_type_invariant(self);
        }
        let ghost ds = self@.decisions;
        let ghost fs = self@.forces;
        let mut r: Vec<&Force> = Vec::new();
        assert(self.records.len() == self@.records().len()) by {
            assert(views(self.records@).len() == self.records.len());
        }
        for i in 0..self.records.len()
            invariant
                views(self.records@) == self@.records(),
                self.records.len() == self@.decisions.len() + self@.forces.len(),
                ds == self@.decisions,
                fs == self@.forces,
                r.len() == (if i <= ds.len() { 0 } else { i - ds.len() }),
                forall|j: int| 0 <= j < r.len() ==> (#[trigger] r@[j])@ == fs[j],
        {
            assert(views(self.records@)[i as int] == self.records@[i as int]@);
            assert(i < ds.len() ==> self@.records()[i as int] is Decision);
            assert(i >= ds.len() ==> self@.records()[i as int] == RecordView::Force(
                fs[i - ds.len()],
            ));
            match &self.records[i] {
                Record::Decision(_) => {},
                Record::Force(f) => {
                    r.push(f);
                },
            }
        }
        assert(views(r@) =~= fs);
        r
    }
}

proof fn lemma_places_push(all: Seq<RecordView>, i: int, m: Map<Seq<char>, usize>)
    requires
        0 <= i < all.len(),
        i <= usize::MAX,
        places_last(all.take(i), m),
    ensures
        places_last(all.take(i + 1), m.insert(all[i].id(), i as usize)),
{
    let before = all.take(i);
    let after = all.take(i + 1);
    let n = m.insert(all[i].id(), i as usize);
    assert forall|id: Seq<char>| #[trigger] n.contains_key(id) implies n[id] < after.len()
        && after[n[id] as int].id() == id by {
        if id != all[i].id() {
            assert(m.contains_key(id));
            assert(before[m[id] as int] == after[m[id] as int]);
        }
    }
    assert forall|id: Seq<char>, k: int|
        0 <= k < after.len() && (#[trigger] after[k]).id()
            == id implies #[trigger] n.contains_key(id) && k <= n[id] by {
        if id != all[i].id() {
            assert(before[k] == after[k]);
            assert(m.contains_key(id));
        }
    }
}

proof fn lemma_mentions(from: Seq<char>, targets: Seq<Seq<char>>, id: Seq<char>, x: Seq<char>)
    ensures
        mentions(from, targets, id).contains(x) <==> x == from && targets.contains(id),
    decreases targets.len(),
{
    if targets.len() > 0 {
        let t = targets.drop_last();
        lemma_mentions(from, t, id, x);
        lemma_push_contains(t, targets.last());
        lemma_push_contains(mentions(from, t, id), from);
        assert(targets =~= t.push(targets.last()));
    }
}

proof fn lemma_referrers(rows: Seq<(Seq<char>, Seq<Seq<char>>)>, id: Seq<char>, x: Seq<char>)
    ensures
        referrers(rows, id).contains(x) <==> exists|i: int|
            0 <= i < rows.len() && (#[trigger] rows[i]).0 == x && rows[i].1.contains(id),
    decreases rows.len(),
{
    if rows.len() > 0 {
        let t = rows.drop_last();
        let last = rows.last();
        lemma_referrers(t, id, x);
        lemma_mentions(last.0, last.1, id, x);
        lemma_sum_contains(referrers(t, id), mentions(last.0, last.1, id));
        if referrers(t, id).contains(x) {
            let i = choose|i: int|
                0 <= i < t.len() && (#[trigger] t[i]).0 == x && t[i].1.contains(id);
            assert(rows[i] == t[i]);
        }
        if exists|i: int|
            0 <= i < rows.len() && (#[trigger] rows[i]).0 == x && rows[i].1.contains(id) {
            let i = choose|i: int|
                0 <= i < rows.len() && (#[trigger] rows[i]).0 == x && rows[i].1.contains(id);
            if i < t.len() {
                assert(t[i] == rows[i]);
            }
        }
    }
}

/// A decision stands in the list of those that cite an id exactly when it
/// cites the id.
pub proof fn law_cited_by(g: GraphView, id: Seq<char>, x: Seq<char>)
    ensures
        g.cited_by(id).contains(x) <==> exists|i: int|
            0 <= i < g.decisions.len() && (#[trigger] g.decisions[i]).id == x
                && g.decisions[i].cites.contains(id),
{
    let rows = g.decisions.map_values(|d: DecisionView| (d.id, d.cites));
    lemma_referrers(rows, id, x);
    lemma_sorted_contains::<String>(referrers(rows, id), x);
    if exists|i: int|
        0 <= i < g.decisions.len() && (#[trigger] g.decisions[i]).id == x
            && g.decisions[i].cites.contains(id) {
        let i = choose|i: int|
            0 <= i < g.decisions.len() && (#[trigger] g.decisions[i]).id == x
                && g.decisions[i].cites.contains(id);
        assert(rows[i].0 == x && rows[i].1.contains(id));
    }
}

/// A force stands in the list of those that depend on an id exactly when it
/// depends on the id.
pub proof fn law_depended_by(g: GraphView, id: Seq<char>, x: Seq<char>)
    ensures
        g.depended_by(id).contains(x) <==> exists|i: int|
            0 <= i < g.forces.len() && (#[trigger] g.forces[i]).id == x
                && g.forces[i].depends_on.contains(id),
{
    let rows = g.forces.map_values(|f: ForceView| (f.id, f.depends_on));
    lemma_referrers(rows, id, x);
    lemma_sorted_contains::<String>(referrers(rows, id), x);
    if exists|i: int|
        0 <= i < g.forces.len() && (#[trigger] g.forces[i]).id == x
            && g.forces[i].depends_on.contains(id) {
        let i = choose|i: int|
            0 <= i < g.forces.len() && (#[trigger] g.forces[i]).id == x
                && g.forces[i].depends_on.contains(id);
        assert(rows[i].0 == x && rows[i].1.contains(id));
    }
}

/// A decision stands in the list of those that supersede an id exactly when it
/// supersedes the id.
pub proof fn law_superseded_by(g: GraphView, id: Seq<char>, x: Seq<char>)
    ensures
        g.superseded_by(id).contains(x) <==> exists|i: int|
            0 <= i < g.decisions.len() && (#[trigger] g.decisions[i]).id == x
                && g.decisions[i].supersedes.contains(id),
{
    let rows = g.decisions.map_values(|d: DecisionView| (d.id, d.supersedes));
    lemma_referrers(rows, id, x);
    lemma_sorted_contains::<String>(referrers(rows, id), x);
    if exists|i: int|
        0 <= i < g.decisions.len() && (#[trigger] g.decisions[i]).id == x
            && g.decisions[i].supersedes.contains(id) {
        let i = choose|i: int|
            0 <= i < g.decisions.len() && (#[trigger] g.decisions[i]).id == x
                && g.decisions[i].supersedes.contains(id);
        assert(rows[i].0 == x && rows[i].1.contains(id));
    }
}

/// What is found under an id has that id, and is one of the records; where
/// nothing is found, no record has the id.
pub proof fn law_lookup(g: GraphView, id: Seq<char>)
    ensures
        match g.lookup(id) {
            Some(r) => r.id() == id && g.records().contains(r),
            None => forall|k: int| 0 <= k < g.records().len() ==> (#[trigger] g.records()[k]).id() != id,
        },
{
    lemma_lookup(g.records(), id);
}

proof fn lemma_lookup(records: Seq<RecordView>, id: Seq<char>)
    ensures
        match last_with(records, id) {
            Some(r) => r.id() == id && records.contains(r),
            None => forall|k: int| 0 <= k < records.len() ==> (#[trigger] records[k]).id() != id,
        },
    decreases records.len(),
{
    if records.len() > 0 {
        let t = records.drop_last();
        lemma_lookup(t, id);
        lemma_push_contains(t, records.last());
        assert(records =~= t.push(records.last()));
        assert(forall|k: int| 0 <= k < t.len() ==> #[trigger] t[k] == records[k]);
        if last_with(records, id) is None {
            assert forall|k: int| 0 <= k < records.len() implies (#[trigger] records[k]).id()
                != id by {
                if k < t.len() {
                    assert(t[k].id() != id);
                }
            }
        }
    }
}

/// Whether no two records have the same id.
pub open spec fn distinct_ids(g: GraphView) -> bool {
    forall|i: int, j: int|
        0 <= i < j < g.records().len() ==> (#[trigger] g.records()[i]).id() != (
        #[trigger] g.records()[j]).id()
}

/// Where no two records have the same id, each is found under its own.
pub proof fn law_lookup_finds(g: GraphView, k: int)
    requires
        0 <= k < g.records().len(),
        distinct_ids(g),
    ensures
        g.lookup(g.records()[k].id()) == Some(g.records()[k]),
{
    lemma_last_with(g.records(), g.records()[k].id(), k);
}

proof fn lemma_mentions_count(from: Seq<char>, targets: Seq<Seq<char>>, id: Seq<char>, x: Seq<char>)
    ensures
        mentions(from, targets, id).to_multiset().count(x) == (if x == from {
            targets.to_multiset().count(id)
        } else {
            0
        }),
    decreases targets.len(),
{
    broadcast use vstd::seq_lib::group_to_multiset_ensures;

    if targets.len() > 0 {
        let t = targets.drop_last();
        lemma_mentions_count(from, t, id, x);
        assert(targets =~= t.push(targets.last()));
    } else {
        assert(mentions(from, targets, id).to_multiset().count(x) == 0);
        assert(targets.to_multiset().count(id) == 0);
    }
}

/// How often an id stands in a list of those that refer to another: as often as
/// its own list of references names that one.
proof fn lemma_referrers_count(rows: Seq<(Seq<char>, Seq<Seq<char>>)>, id: Seq<char>, x: Seq<char>)
    requires
        forall|i: int, j: int|
            0 <= i < j < rows.len() ==> (#[trigger] rows[i]).0 != (#[trigger] rows[j]).0,
    ensures
        forall|i: int|
            0 <= i < rows.len() && (#[trigger] rows[i]).0 == x ==> referrers(
                rows,
                id,
            ).to_multiset().count(x) == rows[i].1.to_multiset().count(id),
        (forall|i: int| 0 <= i < rows.len() ==> (#[trigger] rows[i]).0 != x) ==> referrers(
            rows,
            id,
        ).to_multiset().count(x) == 0,
    decreases rows.len(),
{
    broadcast use vstd::seq_lib::group_to_multiset_ensures;

    if rows.len() > 0 {
        let t = rows.drop_last();
        let last = rows.last();
        let n = t.len() as int;
        assert forall|i: int, j: int| 0 <= i < j < t.len() implies (#[trigger] t[i]).0 != (
        #[trigger] t[j]).0 by {
            assert(rows[i].0 != rows[j].0);
        }
        lemma_referrers_count(t, id, x);
        lemma_mentions_count(last.0, last.1, id, x);
        vstd::seq_lib::lemma_multiset_commutative(referrers(t, id), mentions(last.0, last.1, id));
        assert forall|i: int| 0 <= i < rows.len() && (#[trigger] rows[i]).0 == x implies referrers(
            rows,
            id,
        ).to_multiset().count(x) == rows[i].1.to_multiset().count(id) by {
            if i < n {
                assert(t[i] == rows[i]);
                assert(rows[i].0 != rows[n].0);
            } else {
                assert forall|j: int| 0 <= j < t.len() implies (#[trigger] t[j]).0 != x by {
                    assert(rows[j].0 != rows[n].0);
                }
            }
        }
        if forall|i: int| 0 <= i < rows.len() ==> (#[trigger] rows[i]).0 != x {
            assert(rows[n].0 != x);
            assert forall|j: int| 0 <= j < t.len() implies (#[trigger] t[j]).0 != x by {
                assert(rows[j].0 != x);
            }
        }
    } else {
        assert(referrers(rows, id).to_multiset().count(x) == 0);
    }
}

/// The lists of those that refer to an id are in order, and name a record as
/// often as it refers to the id: a decision that cites it or supersedes it, and
/// a force that depends on it.
pub proof fn law_references_are_counted(g: GraphView, id: Seq<char>, k: int)
    requires
        distinct_ids(g),
        0 <= k,
    ensures
        k < g.decisions.len() ==> g.cited_by(id).to_multiset().count(g.decisions[k].id)
            == g.decisions[k].cites.to_multiset().count(id),
        k < g.decisions.len() ==> g.superseded_by(id).to_multiset().count(g.decisions[k].id)
            == g.decisions[k].supersedes.to_multiset().count(id),
        k < g.forces.len() ==> g.depended_by(id).to_multiset().count(g.forces[k].id)
            == g.forces[k].depends_on.to_multiset().count(id),
        forall|i: int, j: int|
            0 <= i <= j < g.cited_by(id).len() ==> text_le(
                #[trigger] g.cited_by(id)[i],
                #[trigger] g.cited_by(id)[j],
            ),
        forall|i: int, j: int|
            0 <= i <= j < g.superseded_by(id).len() ==> text_le(
                #[trigger] g.superseded_by(id)[i],
                #[trigger] g.superseded_by(id)[j],
            ),
        forall|i: int, j: int|
            0 <= i <= j < g.depended_by(id).len() ==> text_le(
                #[trigger] g.depended_by(id)[i],
                #[trigger] g.depended_by(id)[j],
            ),
{
    let n = g.decisions.len() as int;
    let a = g.decisions.map_values(|d: DecisionView| (d.id, d.cites));
    let b = g.decisions.map_values(|d: DecisionView| (d.id, d.supersedes));
    let c = g.forces.map_values(|f: ForceView| (f.id, f.depends_on));
    assert forall|i: int, j: int| 0 <= i < j < n implies g.decisions[i].id != g.decisions[j].id by {
        assert(g.records()[i].id() != g.records()[j].id());
    }
    assert forall|i: int, j: int| 0 <= i < j < g.forces.len() implies g.forces[i].id
        != g.forces[j].id by {
        assert(g.records()[n + i].id() != g.records()[n + j].id());
    }
    law_sorted_rearranges::<String>(referrers(a, id));
    law_sorted_rearranges::<String>(referrers(b, id));
    law_sorted_rearranges::<String>(referrers(c, id));
    law_sorted_in_order::<String>(referrers(a, id));
    law_sorted_in_order::<String>(referrers(b, id));
    law_sorted_in_order::<String>(referrers(c, id));
    assert forall|i: int, j: int| 0 <= i <= j < g.cited_by(id).len() implies text_le(
        #[trigger] g.cited_by(id)[i],
        #[trigger] g.cited_by(id)[j],
    ) by {
        assert(<String as Ordered>::le(g.cited_by(id)[i], g.cited_by(id)[j]));
    }
    assert forall|i: int, j: int| 0 <= i <= j < g.superseded_by(id).len() implies text_le(
        #[trigger] g.superseded_by(id)[i],
        #[trigger] g.superseded_by(id)[j],
    ) by {
        assert(<String as Ordered>::le(g.superseded_by(id)[i], g.superseded_by(id)[j]));
    }
    assert forall|i: int, j: int| 0 <= i <= j < g.depended_by(id).len() implies text_le(
        #[trigger] g.depended_by(id)[i],
        #[trigger] g.depended_by(id)[j],
    ) by {
        assert(<String as Ordered>::le(g.depended_by(id)[i], g.depended_by(id)[j]));
    }
    if k < n {
        lemma_referrers_count(a, id, g.decisions[k].id);
        lemma_referrers_count(b, id, g.decisions[k].id);
        assert(a[k].0 == g.decisions[k].id && b[k].0 == g.decisions[k].id);
    }
    if k < g.forces.len() {
        lemma_referrers_count(c, id, g.forces[k].id);
        assert(c[k].0 == g.forces[k].id);
    }
}

/// Where no two records have the same id, every decision and every force is
/// found under its id, and nothing else is found.
pub proof fn law_records_are_found_by_their_ids(g: GraphView, k: int, id: Seq<char>)
    requires
        distinct_ids(g),
        0 <= k,
    ensures
        k < g.decisions.len() ==> g.lookup(g.decisions[k].id) == Some(
            RecordView::Decision(g.decisions[k]),
        ),
        k < g.forces.len() ==> g.lookup(g.forces[k].id) == Some(RecordView::Force(g.forces[k])),
        g.lookup(id) is None <==> (forall|i: int|
            0 <= i < g.decisions.len() ==> (#[trigger] g.decisions[i]).id != id) && (forall|i: int|
            0 <= i < g.forces.len() ==> (#[trigger] g.forces[i]).id != id),
{
    let n = g.decisions.len() as int;
    if k < n {
        assert(g.records()[k] == RecordView::Decision(g.decisions[k]));
        law_lookup_finds(g, k);
    }
    if k < g.forces.len() {
        assert(g.records()[n + k] == RecordView::Force(g.forces[k]));
        law_lookup_finds(g, n + k);
    }
    law_lookup(g, id);
    if g.lookup(id) is None {
        assert forall|i: int| 0 <= i < g.decisions.len() implies (#[trigger] g.decisions[i]).id
            != id by {
            assert(g.records()[i].id() != id);
        }
        assert forall|i: int| 0 <= i < g.forces.len() implies (#[trigger] g.forces[i]).id != id by {
            assert(g.records()[n + i].id() != id);
        }
    } else {
        let r = g.lookup(id)->0;
        let q = choose|q: int| 0 <= q < g.records().len() && g.records()[q] == r;
        if q < n {
            assert(g.decisions[q].id == id);
        } else {
            assert(g.forces[q - n].id == id);
        }
    }
}

} // verus!
