//! The linker: from what was read to a set of records with different ids, and
//! what is wrong with them.
use vstd::prelude::*;
use crate::cycles::{
    detect_cycles, force_ids, goes_on, is_cycle, is_report, is_round, next_of, reports_cycles, shows,
    shows_at, Members,
};
use crate::order::{
    in_order, law_sorted_ignores_order, law_sorted_in_order, law_sorted_rearranges, lemma_picked_contains,
    lemma_picked_sorted, lemma_picked_sum, lemma_sorted_contains, lemma_sorted_once,
    lemma_sorted_update, picked, sort, sorted, text_le, texts_le, ties, Ordered,
};
use crate::paths::{
    components, lemma_path_le_total, lemma_path_le_transitive, lemma_path_tie, path_le,
    path_not_after,
};
use crate::record::{
    path_of, valid_log, well_read, Decision, DecisionView, Force, ForceView, Parsed,
    ParseErrorView, ParsedView,
};
use crate::text::{copy_texts, lemma_push_contains, lemma_sum_contains, same_text, views};
use vstd::hash_set::StringHashSet;

verus! {

/// The field in which a record refers to another.
#[derive(Debug, Clone, Copy, PartialEq, Eq, Structural)]
pub enum RefField {
    Cites,
    Supersedes,
    Relates,
    DependsOn,
    SupersededBy,
}

/// Something that is wrong with a corpus.
#[derive(Debug)]
pub enum Diagnostic {
    /// A file is not a record.
    ParseError { path: String, message: String },
    /// A root directory does not exist.
    MissingRoot { path: String },
    /// Several records have the same id.
    IdCollision { id: String, paths: Vec<String> },
    /// A record refers to an id that no record has.
    DanglingRef { from: String, field: RefField, to: String },
    /// Forces rest on each other.
    DependsOnCycle { members: Vec<String> },
}

/// What a [`Diagnostic`] stands for.
#[verifier::ext_equal]
pub enum DiagnosticView {
    ParseError { path: Seq<char>, message: Seq<char> },
    MissingRoot { path: Seq<char> },
    IdCollision { id: Seq<char>, paths: Seq<Seq<char>> },
    DanglingRef { from: Seq<char>, field: RefField, to: Seq<char> },
    DependsOnCycle { members: Seq<Seq<char>> },
}

impl View for Diagnostic {
    type V = DiagnosticView;

    open spec fn view(&self) -> DiagnosticView {
        match self {
            Diagnostic::ParseError { path, message } => DiagnosticView::ParseError {
                path: path@,
                message: message@,
            },
            Diagnostic::MissingRoot { path } => DiagnosticView::MissingRoot { path: path@ },
            Diagnostic::IdCollision { id, paths } => DiagnosticView::IdCollision {
                id: id@,
                paths: views(paths@),
            },
            Diagnostic::DanglingRef { from, field, to } => DiagnosticView::DanglingRef {
                from: from@,
                field: *field,
                to: to@,
            },
            Diagnostic::DependsOnCycle { members } => DiagnosticView::DependsOnCycle {
                members: views(members@),
            },
        }
    }
}

impl Clone for Diagnostic {
    fn clone(&self) -> (r: Self)
        ensures
            r@ == self@,
    {
        match self {
            Diagnostic::ParseError { path, message } => Diagnostic::ParseError {
                path: path.clone(),
                message: message.clone(),
            },
            Diagnostic::MissingRoot { path } => Diagnostic::MissingRoot { path: path.clone() },
            Diagnostic::IdCollision { id, paths } => Diagnostic::IdCollision {
                id: id.clone(),
                paths: copy_texts(paths),
            },
            Diagnostic::DanglingRef { from, field, to } => Diagnostic::DanglingRef {
                from: from.clone(),
                field: *field,
                to: to.clone(),
            },
            Diagnostic::DependsOnCycle { members } => Diagnostic::DependsOnCycle {
                members: copy_texts(members),
            },
        }
    }
}

/// The records of a corpus, with different ids, and what is wrong with it.
pub struct Linked {
    pub decisions: Vec<Decision>,
    pub forces: Vec<Force>,
    pub diagnostics: Vec<Diagnostic>,
}

/// What a [`Linked`] stands for.
#[verifier::ext_equal]
pub struct LinkedView {
    pub decisions: Seq<DecisionView>,
    pub forces: Seq<ForceView>,
    pub diagnostics: Seq<DiagnosticView>,
}

impl View for Linked {
    type V = LinkedView;

    open spec fn view(&self) -> LinkedView {
        LinkedView {
            decisions: views(self.decisions@),
            forces: views(self.forces@),
            diagnostics: views(self.diagnostics@),
        }
    }
}

impl Ordered for Decision {
    open spec fn le(a: DecisionView, b: DecisionView) -> bool {
        path_le(a.path, b.path)
    }

    proof fn le_total(a: DecisionView, b: DecisionView) {
        lemma_path_le_total(a.path, b.path);
    }

    proof fn le_transitive(a: DecisionView, b: DecisionView, c: DecisionView) {
        lemma_path_le_transitive(a.path, b.path, c.path);
    }

    fn not_after(&self, other: &Self) -> (r: bool) {
        path_not_after(self.path.as_str(), other.path.as_str())
    }
}

impl Ordered for Force {
    open spec fn le(a: ForceView, b: ForceView) -> bool {
        path_le(a.path, b.path)
    }

    proof fn le_total(a: ForceView, b: ForceView) {
        lemma_path_le_total(a.path, b.path);
    }

    proof fn le_transitive(a: ForceView, b: ForceView, c: ForceView) {
        lemma_path_le_transitive(a.path, b.path, c.path);
    }

    fn not_after(&self, other: &Self) -> (r: bool) {
        path_not_after(self.path.as_str(), other.path.as_str())
    }
}

/// The decisions among what was read.
pub open spec fn decisions_of(parsed: Seq<ParsedView>) -> Seq<DecisionView>
    decreases parsed.len(),
{
    if parsed.len() == 0 {
        Seq::empty()
    } else {
        let before = decisions_of(parsed.drop_last());
        match parsed.last() {
            ParsedView::Decision(d) => before.push(d),
            _ => before,
        }
    }
}

/// The forces among what was read.
pub open spec fn forces_of(parsed: Seq<ParsedView>) -> Seq<ForceView>
    decreases parsed.len(),
{
    if parsed.len() == 0 {
        Seq::empty()
    } else {
        let before = forces_of(parsed.drop_last());
        match parsed.last() {
            ParsedView::Force(f) => before.push(f),
            _ => before,
        }
    }
}

/// The files among what was read that are not records.
pub open spec fn errors_of(parsed: Seq<ParsedView>) -> Seq<DiagnosticView>
    decreases parsed.len(),
{
    if parsed.len() == 0 {
        Seq::empty()
    } else {
        let before = errors_of(parsed.drop_last());
        match parsed.last() {
            ParsedView::Error(e) => before.push(
                DiagnosticView::ParseError { path: e.path, message: e.message },
            ),
            _ => before,
        }
    }
}

/// The ids of a list of decisions.
pub open spec fn decision_ids(decisions: Seq<DecisionView>) -> Seq<Seq<char>> {
    decisions.map_values(|d: DecisionView| d.id)
}

/// The decisions whose id no earlier one has.
pub open spec fn first_decisions(ds: Seq<DecisionView>) -> Seq<DecisionView>
    decreases ds.len(),
{
    if ds.len() == 0 {
        Seq::empty()
    } else {
        let before = first_decisions(ds.drop_last());
        if decision_ids(ds.drop_last()).contains(ds.last().id) {
            before
        } else {
            before.push(ds.last())
        }
    }
}

/// The forces whose id no earlier one has, and none of the ids taken.
pub open spec fn first_forces(taken: Seq<Seq<char>>, fs: Seq<ForceView>) -> Seq<ForceView>
    decreases fs.len(),
{
    if fs.len() == 0 {
        Seq::empty()
    } else {
        let before = first_forces(taken, fs.drop_last());
        if taken.contains(fs.last().id) || force_ids(fs.drop_last()).contains(fs.last().id) {
            before
        } else {
            before.push(fs.last())
        }
    }
}

/// The id and the path of each of the records, decisions first.
pub open spec fn places(ds: Seq<DecisionView>, fs: Seq<ForceView>) -> Seq<(Seq<char>, Seq<char>)> {
    ds.map_values(|d: DecisionView| (d.id, d.path)) + fs.map_values(|f: ForceView| (f.id, f.path))
}

/// The paths of the records with the given id.
pub open spec fn paths_with(places: Seq<(Seq<char>, Seq<char>)>, id: Seq<char>) -> Seq<Seq<char>>
    decreases places.len(),
{
    if places.len() == 0 {
        Seq::empty()
    } else {
        let before = paths_with(places.drop_last(), id);
        if places.last().0 == id {
            before.push(places.last().1)
        } else {
            before
        }
    }
}

/// The collisions among the ids of the first `n` records, each reported where
/// its id first occurs, with the paths of all records that have the id.
pub open spec fn collisions(places: Seq<(Seq<char>, Seq<char>)>, n: int) -> Seq<DiagnosticView>
    decreases n,
{
    if n <= 0 {
        Seq::empty()
    } else {
        let before = collisions(places, n - 1);
        let id = places[n - 1].0;
        if paths_with(places.take(n - 1), id).len() == 0 && paths_with(places, id).len() > 1 {
            before.push(DiagnosticView::IdCollision { id, paths: paths_with(places, id) })
        } else {
            before
        }
    }
}

/// The references in one field that no record answers to.
pub open spec fn unanswered(
    from: Seq<char>,
    field: RefField,
    targets: Seq<Seq<char>>,
    known: Seq<Seq<char>>,
) -> Seq<DiagnosticView>
    decreases targets.len(),
{
    if targets.len() == 0 {
        Seq::empty()
    } else {
        let before = unanswered(from, field, targets.drop_last(), known);
        if known.contains(targets.last()) {
            before
        } else {
            before.push(DiagnosticView::DanglingRef { from, field, to: targets.last() })
        }
    }
}

/// The references of decisions that no record answers to.
pub open spec fn dangling_decisions(
    ds: Seq<DecisionView>,
    known: Seq<Seq<char>>,
) -> Seq<DiagnosticView>
    decreases ds.len(),
{
    if ds.len() == 0 {
        Seq::empty()
    } else {
        let d = ds.last();
        dangling_decisions(ds.drop_last(), known) + unanswered(
            d.id,
            RefField::Cites,
            d.cites,
            known,
        ) + unanswered(d.id, RefField::Supersedes, d.supersedes, known) + unanswered(
            d.id,
            RefField::Relates,
            d.relates,
            known,
        )
    }
}

/// The list of nothing or one element.
pub open spec fn as_list(o: Option<Seq<char>>) -> Seq<Seq<char>> {
    match o {
        Some(x) => seq![x],
        None => Seq::empty(),
    }
}

/// The references of forces that no record answers to.
pub open spec fn dangling_forces(fs: Seq<ForceView>, known: Seq<Seq<char>>) -> Seq<DiagnosticView>
    decreases fs.len(),
{
    if fs.len() == 0 {
        Seq::empty()
    } else {
        let f = fs.last();
        dangling_forces(fs.drop_last(), known) + unanswered(
            f.id,
            RefField::DependsOn,
            f.depends_on,
            known,
        ) + unanswered(f.id, RefField::SupersededBy, as_list(f.superseded_by), known)
    }
}

/// The reports of cycles.
pub open spec fn cycle_reports(cs: Seq<Seq<Seq<char>>>) -> Seq<DiagnosticView> {
    cs.map_values(|c: Seq<Seq<char>>| DiagnosticView::DependsOnCycle { members: c })
}

/// The decisions that linking keeps.
pub open spec fn kept_decisions(parsed: Seq<ParsedView>) -> Seq<DecisionView> {
    first_decisions(sorted::<Decision>(decisions_of(parsed)))
}

/// The forces that linking keeps.
pub open spec fn kept_forces(parsed: Seq<ParsedView>) -> Seq<ForceView> {
    first_forces(
        decision_ids(sorted::<Decision>(decisions_of(parsed))),
        sorted::<Force>(forces_of(parsed)),
    )
}

/// All ids that the records have.
pub open spec fn known_ids(parsed: Seq<ParsedView>) -> Seq<Seq<char>> {
    decision_ids(sorted::<Decision>(decisions_of(parsed))) + force_ids(
        sorted::<Force>(forces_of(parsed)),
    )
}

/// What is wrong with the records, but for cycles: ids that collide, and
/// references that no record answers to.
pub open spec fn record_problems(parsed: Seq<ParsedView>) -> Seq<DiagnosticView> {
    let ps = places(sorted::<Decision>(decisions_of(parsed)), sorted::<Force>(forces_of(parsed)));
    collisions(ps, ps.len() as int) + dangling_decisions(kept_decisions(parsed), known_ids(parsed))
        + dangling_forces(kept_forces(parsed), known_ids(parsed))
}

/// What is wrong with a corpus, but for cycles: files that are not records,
/// and what is wrong with the records.
pub open spec fn link_problems(parsed: Seq<ParsedView>) -> Seq<DiagnosticView> {
    errors_of(parsed) + record_problems(parsed)
}

/// Whether `linked` is what linking makes of what was read.
pub open spec fn links(parsed: Seq<ParsedView>, linked: LinkedView) -> bool {
    &&& linked.decisions == kept_decisions(parsed)
    &&& linked.forces == kept_forces(parsed)
    &&& exists|cs: Seq<Seq<Seq<char>>>|
        #![trigger cycle_reports(cs)]
        reports_cycles(linked.forces, cs) && linked.diagnostics == link_problems(parsed)
            + cycle_reports(cs)
}

/// Divides what was read into decisions, forces, and reports of files that are
/// not records.
fn divide(parsed: Vec<Parsed>) -> (r: (Vec<Decision>, Vec<Force>, Vec<Diagnostic>))
    ensures
        views(r.0@) == decisions_of(views(parsed@)),
        views(r.1@) == forces_of(views(parsed@)),
        views(r.2@) == errors_of(views(parsed@)),
{
    let ghost all = views(parsed@);
    let mut decisions: Vec<Decision> = Vec::new();
    let mut forces: Vec<Force> = Vec::new();
    let mut errors: Vec<Diagnostic> = Vec::new();
    assert(views(decisions@) =~= decisions_of(all.take(0)));
    assert(views(forces@) =~= forces_of(all.take(0)));
    assert(views(errors@) =~= errors_of(all.take(0)));
    for p in it: parsed.into_iter()
        invariant
            all == views(it.seq()),
            views(decisions@) == decisions_of(all.take(it.index() as int)),
            views(forces@) == forces_of(all.take(it.index() as int)),
            views(errors@) == errors_of(all.take(it.index() as int)),
    {
        let ghost i = it.index() as int;
        let ghost before = (views(decisions@), views(forces@), views(errors@));
        proof {
            assert(all.take(i + 1).drop_last() =~= all.take(i));
            assert(all.take(i + 1).last() == p@);
        }
        match p {
            Parsed::Decision(d) => {
                decisions.push(d);
                assert(views(decisions@) =~= before.0.push(d@));
            },
            Parsed::Force(f) => {
                forces.push(f);
                assert(views(forces@) =~= before.1.push(f@));
            },
            Parsed::Error(e) => {
                let d = Diagnostic::ParseError { path: e.path, message: e.message };
                errors.push(d);
                assert(views(errors@) =~= before.2.push(d@));
            },
        }
    }
    assert(all.take(all.len() as int) =~= all);
    (decisions, forces, errors)
}

/// The id and the path of a record.
struct Place {
    id: String,
    path: String,
}

impl View for Place {
    type V = (Seq<char>, Seq<char>);

    closed spec fn view(&self) -> (Seq<char>, Seq<char>) {
        (self.id@, self.path@)
    }
}

fn places_of(ds: &Vec<Decision>, fs: &Vec<Force>) -> (r: Vec<Place>)
    ensures
        views(r@) == places(views(ds@), views(fs@)),
{
    let ghost all = places(views(ds@), views(fs@));
    let mut r: Vec<Place> = Vec::new();
    for i in 0..ds.len()
        invariant
            all == places(views(ds@), views(fs@)),
            r.len() == i,
            forall|j: int| 0 <= j < i ==> (#[trigger] r@[j])@ == all[j],
    {
        let place = Place { id: ds[i].id.clone(), path: ds[i].path.clone() };
        assert(all[i as int] == place@);
        r.push(place);
    }
    for i in 0..fs.len()
        invariant
            all == places(views(ds@), views(fs@)),
            r.len() == ds.len() + i,
            forall|j: int| 0 <= j < ds.len() + i ==> (#[trigger] r@[j])@ == all[j],
    {
        let place = Place { id: fs[i].id.clone(), path: fs[i].path.clone() };
        assert(all[ds.len() + i] == place@);
        r.push(place);
    }
    assert(views(r@) =~= all);
    r
}

fn gather_paths(ps: &Vec<Place>, id: &str, end: usize) -> (r: Vec<String>)
    requires
        end <= ps.len(),
    ensures
        views(r@) == paths_with(views(ps@).take(end as int), id@),
{
    let ghost all = views(ps@);
    let mut r: Vec<String> = Vec::new();
    assert(views(r@) =~= paths_with(all.take(0), id@));
    for i in 0..end
        invariant
            end <= ps.len(),
            all == views(ps@),
            views(r@) == paths_with(all.take(i as int), id@),
    {
        let ghost before = views(r@);
        proof {
            assert(all.take(i + 1).drop_last() =~= all.take(i as int));
            assert(all.take(i + 1).last() == ps@[i as int]@);
        }
        if same_text(ps[i].id.as_str(), id) {
            r.push(ps[i].path.clone());
            assert(views(r@) =~= before.push(ps@[i as int].path@));
        }
    }
    r
}

fn report_collisions(ps: &Vec<Place>, out: &mut Vec<Diagnostic>)
    ensures
        views(final(out)@) == views(old(out)@) + collisions(views(ps@), ps.len() as int),
{
    let ghost all = views(ps@);
    let ghost first = views(out@);
    assert(first + collisions(all, 0) =~= first);
    for i in 0..ps.len()
        invariant
            all == views(ps@),
            views(out@) == first + collisions(all, i as int),
    {
        let ghost before = views(out@);
        let ghost found = collisions(all, i as int);
        let id = &ps[i].id;
        assert(all[i as int].0 == id@);
        let earlier = gather_paths(ps, id.as_str(), i);
        let paths = gather_paths(ps, id.as_str(), ps.len());
        assert(all.take(all.len() as int) =~= all);
        assert(earlier@.len() == views(earlier@).len() && paths@.len() == views(paths@).len());
        if earlier.len() == 0 && paths.len() > 1 {
            let d = Diagnostic::IdCollision { id: id.clone(), paths };
            out.push(d);
            assert(views(out@) =~= before.push(d@));
            assert(first + found.push(d@) =~= before.push(d@));
        }
    }
}

fn keep_decisions(ds: Vec<Decision>, seen: &mut StringHashSet) -> (r: Vec<Decision>)
    requires
        old(seen)@ == Set::<Seq<char>>::empty(),
    ensures
        views(r@) == first_decisions(views(ds@)),
        forall|id: Seq<char>| #[trigger]
            final(seen)@.contains(id) <==> decision_ids(views(ds@)).contains(id),
{
    let ghost all = views(ds@);
    let mut r: Vec<Decision> = Vec::new();
    assert(views(r@) =~= first_decisions(all.take(0)));
    for d in it: ds.into_iter()
        invariant
            all == views(it.seq()),
            views(r@) == first_decisions(all.take(it.index() as int)),
            forall|id: Seq<char>| #[trigger]
                seen@.contains(id) <==> decision_ids(all.take(it.index() as int)).contains(id),
    {
        let ghost i = it.index() as int;
        let ghost before = views(r@);
        let ghost taken = decision_ids(all.take(i));
        proof {
            assert(all.take(i + 1).drop_last() =~= all.take(i));
            assert(all.take(i + 1).last() == d@);
            assert(decision_ids(all.take(i + 1)) =~= taken.push(d@.id));
            lemma_push_contains(taken, d@.id);
        }
        let fresh = seen.insert(d.id.clone());
        if fresh {
            r.push(d);
            assert(views(r@) =~= before.push(d@));
        }
    }
    assert(all.take(all.len() as int) =~= all);
    r
}

fn keep_forces(fs: Vec<Force>, seen: &mut StringHashSet, Ghost(taken): Ghost<Seq<Seq<char>>>) -> (r:
    Vec<Force>)
    requires
        forall|id: Seq<char>| #[trigger] old(seen)@.contains(id) <==> taken.contains(id),
    ensures
        views(r@) == first_forces(taken, views(fs@)),
        forall|id: Seq<char>| #[trigger]
            final(seen)@.contains(id) <==> (taken + force_ids(views(fs@))).contains(id),
{
    let ghost all = views(fs@);
    let mut r: Vec<Force> = Vec::new();
    assert(views(r@) =~= first_forces(taken, all.take(0)));
    for f in it: fs.into_iter()
        invariant
            all == views(it.seq()),
            views(r@) == first_forces(taken, all.take(it.index() as int)),
            forall|id: Seq<char>| #[trigger]
                seen@.contains(id) <==> taken.contains(id) || force_ids(
                    all.take(it.index() as int),
                ).contains(id),
    {
        let ghost i = it.index() as int;
        let ghost before = views(r@);
        let ghost ids = force_ids(all.take(i));
        proof {
            assert(all.take(i + 1).drop_last() =~= all.take(i));
            assert(all.take(i + 1).last() == f@);
            assert(force_ids(all.take(i + 1)) =~= ids.push(f@.id));
            lemma_push_contains(ids, f@.id);
        }
        let fresh = seen.insert(f.id.clone());
        if fresh {
            r.push(f);
            assert(views(r@) =~= before.push(f@));
        }
    }
    proof {
        assert(all.take(all.len() as int) =~= all);
        lemma_sum_contains(taken, force_ids(all));
    }
    r
}

fn report_unanswered(
    from: &str,
    field: RefField,
    targets: &Vec<String>,
    known: &StringHashSet,
    Ghost(ids): Ghost<Seq<Seq<char>>>,
    out: &mut Vec<Diagnostic>,
)
    requires
        forall|id: Seq<char>| #[trigger] known@.contains(id) <==> ids.contains(id),
    ensures
        views(final(out)@) == views(old(out)@) + unanswered(from@, field, views(targets@), ids),
{
    let ghost ts = views(targets@);
    let ghost first = views(out@);
    assert(first + unanswered(from@, field, ts.take(0), ids) =~= first);
    for i in 0..targets.len()
        invariant
            ts == views(targets@),
            forall|id: Seq<char>| #[trigger] known@.contains(id) <==> ids.contains(id),
            views(out@) == first + unanswered(from@, field, ts.take(i as int), ids),
    {
        let ghost before = views(out@);
        let ghost found = unanswered(from@, field, ts.take(i as int), ids);
        proof {
            assert(ts.take(i + 1).drop_last() =~= ts.take(i as int));
            assert(ts.take(i + 1).last() == targets@[i as int]@);
        }
        if !known.contains(targets[i].as_str()) {
            let d = Diagnostic::DanglingRef { from: from.to_string(), field, to: targets[i].clone() };
            out.push(d);
            assert(views(out@) =~= before.push(d@));
            assert(first + found.push(d@) =~= before.push(d@));
        }
    }
    assert(ts.take(ts.len() as int) =~= ts);
}

fn report_dangling_decisions(
    ds: &Vec<Decision>,
    known: &StringHashSet,
    Ghost(ids): Ghost<Seq<Seq<char>>>,
    out: &mut Vec<Diagnostic>,
)
    requires
        forall|id: Seq<char>| #[trigger] known@.contains(id) <==> ids.contains(id),
    ensures
        views(final(out)@) == views(old(out)@) + dangling_decisions(views(ds@), ids),
{
    let ghost all = views(ds@);
    let ghost first = views(out@);
    assert(first + dangling_decisions(all.take(0), ids) =~= first);
    for i in 0..ds.len()
        invariant
            all == views(ds@),
            forall|id: Seq<char>| #[trigger] known@.contains(id) <==> ids.contains(id),
            views(out@) == first + dangling_decisions(all.take(i as int), ids),
    {
        let ghost found = dangling_decisions(all.take(i as int), ids);
        let d = &ds[i];
        let from = d.id.as_str();
        proof {
            assert(all.take(i + 1).drop_last() =~= all.take(i as int));
            assert(all.take(i + 1).last() == d@);
        }
        let ghost a = unanswered(from@, RefField::Cites, d@.cites, ids);
        let ghost b = unanswered(from@, RefField::Supersedes, d@.supersedes, ids);
        let ghost c = unanswered(from@, RefField::Relates, d@.relates, ids);
        report_unanswered(from, RefField::Cites, &d.cites, known, Ghost(ids), out);
        report_unanswered(from, RefField::Supersedes, &d.supersedes, known, Ghost(ids), out);
        report_unanswered(from, RefField::Relates, &d.relates, known, Ghost(ids), out);
        assert(first + (found + a + b + c) =~= first + found + a + b + c);
    }
    assert(all.take(all.len() as int) =~= all);
}

fn report_dangling_forces(
    fs: &Vec<Force>,
    known: &StringHashSet,
    Ghost(ids): Ghost<Seq<Seq<char>>>,
    out: &mut Vec<Diagnostic>,
)
    requires
        forall|id: Seq<char>| #[trigger] known@.contains(id) <==> ids.contains(id),
    ensures
        views(final(out)@) == views(old(out)@) + dangling_forces(views(fs@), ids),
{
    let ghost all = views(fs@);
    let ghost first = views(out@);
    assert(first + dangling_forces(all.take(0), ids) =~= first);
    for i in 0..fs.len()
        invariant
            all == views(fs@),
            forall|id: Seq<char>| #[trigger] known@.contains(id) <==> ids.contains(id),
            views(out@) == first + dangling_forces(all.take(i as int), ids),
    {
        let ghost found = dangling_forces(all.take(i as int), ids);
        let f = &fs[i];
        let from = f.id.as_str();
        proof {
            assert(all.take(i + 1).drop_last() =~= all.take(i as int));
            assert(all.take(i + 1).last() == f@);
        }
        let mut successor: Vec<String> = Vec::new();
        if let Some(id) = &f.superseded_by {
            successor.push(id.clone());
        }
        assert(views(successor@) =~= as_list(f@.superseded_by));
        let ghost a = unanswered(from@, RefField::DependsOn, f@.depends_on, ids);
        let ghost b = unanswered(from@, RefField::SupersededBy, as_list(f@.superseded_by), ids);
        report_unanswered(from, RefField::DependsOn, &f.depends_on, known, Ghost(ids), out);
        report_unanswered(from, RefField::SupersededBy, &successor, known, Ghost(ids), out);
        assert(first + (found + a + b) =~= first + found + a + b);
    }
    assert(all.take(all.len() as int) =~= all);
}

fn report_cycles(cycles: Vec<Members>, out: &mut Vec<Diagnostic>)
    ensures
        views(final(out)@) == views(old(out)@) + cycle_reports(views(cycles@)),
{
    let ghost cs = views(cycles@);
    let ghost first = views(out@);
    assert(first + cycle_reports(cs.take(0)) =~= first);
    for m in it: cycles.into_iter()
        invariant
            cs == views(it.seq()),
            views(out@) == first + cycle_reports(cs.take(it.index() as int)),
    {
        let ghost i = it.index() as int;
        let ghost before = views(out@);
        assert(cs[i] == m@);
        let d = Diagnostic::DependsOnCycle { members: m.ids };
        out.push(d);
        proof {
            assert(d@ == (DiagnosticView::DependsOnCycle { members: cs[i] }));
            assert(views(out@) =~= before.push(d@));
            assert(cycle_reports(cs.take(i + 1)) =~= cycle_reports(cs.take(i)).push(d@));
            assert(first + cycle_reports(cs.take(i)).push(d@) =~= before.push(d@));
        }
    }
    assert(cs.take(cs.len() as int) =~= cs);
}

/// Among the decisions that are kept no id occurs twice.
pub proof fn lemma_first_decisions(ds: Seq<DecisionView>)
    ensures
        decision_ids(first_decisions(ds)).no_duplicates(),
        forall|id: Seq<char>| #[trigger]
            decision_ids(first_decisions(ds)).contains(id) <==> decision_ids(ds).contains(id),
    decreases ds.len(),
{
    let kept = decision_ids(first_decisions(ds));
    if ds.len() == 0 {
        assert(kept =~= decision_ids(ds));
    } else {
        let t = ds.drop_last();
        lemma_first_decisions(t);
        let before = decision_ids(first_decisions(t));
        assert(decision_ids(ds) =~= decision_ids(t).push(ds.last().id));
        lemma_push_contains(decision_ids(t), ds.last().id);
        if decision_ids(t).contains(ds.last().id) {
        } else {
            assert(kept =~= before.push(ds.last().id));
            lemma_push_contains(before, ds.last().id);
            assert(!before.contains(ds.last().id));
        }
    }
}

/// Among the forces that are kept no id occurs twice, and none of those taken.
pub proof fn lemma_first_forces(taken: Seq<Seq<char>>, fs: Seq<ForceView>)
    ensures
        force_ids(first_forces(taken, fs)).no_duplicates(),
        forall|id: Seq<char>| #[trigger]
            force_ids(first_forces(taken, fs)).contains(id) <==> force_ids(fs).contains(id)
                && !taken.contains(id),
    decreases fs.len(),
{
    let kept = force_ids(first_forces(taken, fs));
    if fs.len() == 0 {
        assert(kept =~= force_ids(fs));
    } else {
        let t = fs.drop_last();
        lemma_first_forces(taken, t);
        let before = force_ids(first_forces(taken, t));
        assert(force_ids(fs) =~= force_ids(t).push(fs.last().id));
        lemma_push_contains(force_ids(t), fs.last().id);
        if taken.contains(fs.last().id) || force_ids(t).contains(fs.last().id) {
        } else {
            assert(kept =~= before.push(fs.last().id));
            lemma_push_contains(before, fs.last().id);
            assert(!before.contains(fs.last().id));
        }
    }
}

/// Links what was read. Records are taken in the order of their paths,
/// decisions first; of several with one id the first is kept. What is wrong is
/// reported, and nothing is an error.
pub fn link(parsed: Vec<Parsed>) -> (linked: Linked)
    ensures
        links(views(parsed@), linked@),
{
    let ghost all = views(parsed@);
    let (decisions, forces, mut diagnostics) = divide(parsed);
    let decisions = sort(decisions);
    let forces = sort(forces);
    let ghost ds = views(decisions@);
    let ghost fs = views(forces@);
    let ghost known_seq = decision_ids(ds) + force_ids(fs);
    report_collisions(&places_of(&decisions, &forces), &mut diagnostics);
    let mut known = StringHashSet::new();
    let decisions = keep_decisions(decisions, &mut known);
    let forces = keep_forces(forces, &mut known, Ghost(decision_ids(ds)));
    report_dangling_decisions(&decisions, &known, Ghost(known_seq), &mut diagnostics);
    report_dangling_forces(&forces, &known, Ghost(known_seq), &mut diagnostics);
    assert(views(diagnostics@) =~= link_problems(all));
    proof {
        lemma_first_forces(decision_ids(ds), fs);
    }
    let cycles = detect_cycles(&forces);
    report_cycles(cycles, &mut diagnostics);
    Linked { decisions, forces, diagnostics }
}

/// The records that are kept have different ids, and every id that was read
/// is one of theirs.
pub proof fn law_linked_ids(parsed: Seq<ParsedView>)
    ensures
        (decision_ids(kept_decisions(parsed)) + force_ids(kept_forces(parsed))).no_duplicates(),
        forall|id: Seq<char>| #[trigger]
            known_ids(parsed).contains(id) <==> decision_ids(kept_decisions(parsed)).contains(id)
                || force_ids(kept_forces(parsed)).contains(id),
{
    let ds = sorted::<Decision>(decisions_of(parsed));
    let fs = sorted::<Force>(forces_of(parsed));
    let a = decision_ids(kept_decisions(parsed));
    let b = force_ids(kept_forces(parsed));
    lemma_first_decisions(ds);
    lemma_first_forces(decision_ids(ds), fs);
    lemma_sum_contains(decision_ids(ds), force_ids(fs));
    assert forall|i: int, j: int| 0 <= i < (a + b).len() && 0 <= j < (a + b).len() && i
        != j implies (a + b)[i] != (a + b)[j] by {
        if i < a.len() && j >= a.len() {
            assert(a.contains(a[i]) && b.contains(b[j - a.len()]));
        } else if j < a.len() && i >= a.len() {
            assert(a.contains(a[j]) && b.contains(b[i - a.len()]));
        }
    }
}

proof fn lemma_first_among(ds: Seq<DecisionView>, d: DecisionView)
    ensures
        first_decisions(ds).contains(d) ==> ds.contains(d),
    decreases ds.len(),
{
    if ds.len() > 0 {
        let t = ds.drop_last();
        lemma_first_among(t, d);
        lemma_push_contains(t, ds.last());
        lemma_push_contains(first_decisions(t), ds.last());
        assert(t.push(ds.last()) =~= ds);
    }
}

proof fn lemma_first_among_forces(taken: Seq<Seq<char>>, fs: Seq<ForceView>, f: ForceView)
    ensures
        first_forces(taken, fs).contains(f) ==> fs.contains(f),
    decreases fs.len(),
{
    if fs.len() > 0 {
        let t = fs.drop_last();
        lemma_first_among_forces(taken, t, f);
        lemma_push_contains(t, fs.last());
        lemma_push_contains(first_forces(taken, t), fs.last());
        assert(t.push(fs.last()) =~= fs);
    }
}

/// How often records occur among what was read.
proof fn lemma_counts(parsed: Seq<ParsedView>)
    ensures
        forall|d: DecisionView| #[trigger]
            decisions_of(parsed).to_multiset().count(d) == parsed.to_multiset().count(
                ParsedView::Decision(d),
            ),
        forall|f: ForceView| #[trigger]
            forces_of(parsed).to_multiset().count(f) == parsed.to_multiset().count(
                ParsedView::Force(f),
            ),
        forall|d: DiagnosticView| #[trigger]
            errors_of(parsed).to_multiset().count(d) == match d {
                DiagnosticView::ParseError { path, message } => parsed.to_multiset().count(
                    ParsedView::Error(ParseErrorView { path, message }),
                ),
                _ => 0,
            },
        decisions_of(parsed).len() + forces_of(parsed).len() + errors_of(parsed).len()
            == parsed.len(),
    decreases parsed.len(),
{
    broadcast use vstd::seq_lib::group_to_multiset_ensures;

    if parsed.len() > 0 {
        let t = parsed.drop_last();
        lemma_counts(t);
        assert(parsed =~= t.push(parsed.last()));
    } else {
        assert(decisions_of(parsed).to_multiset().len() == 0);
        assert(forces_of(parsed).to_multiset().len() == 0);
        assert(errors_of(parsed).to_multiset().len() == 0);
        assert(parsed.to_multiset().len() == 0);
    }
}

/// Every file is accounted for: it is a decision, a force, or reported as
/// neither.
pub proof fn law_every_file_counts(parsed: Seq<ParsedView>)
    ensures
        decisions_of(parsed).len() + forces_of(parsed).len() + errors_of(parsed).len()
            == parsed.len(),
{
    lemma_counts(parsed);
}

/// The records that are kept were read.
pub proof fn law_kept_were_read(parsed: Seq<ParsedView>)
    ensures
        forall|d: DecisionView| #[trigger]
            kept_decisions(parsed).contains(d) ==> parsed.contains(ParsedView::Decision(d)),
        forall|f: ForceView| #[trigger]
            kept_forces(parsed).contains(f) ==> parsed.contains(ParsedView::Force(f)),
{
    broadcast use vstd::seq_lib::group_to_multiset_ensures;

    let ds = sorted::<Decision>(decisions_of(parsed));
    let fs = sorted::<Force>(forces_of(parsed));
    lemma_counts(parsed);
    assert forall|d: DecisionView| #[trigger]
        kept_decisions(parsed).contains(d) implies parsed.contains(ParsedView::Decision(d)) by {
        lemma_first_among(ds, d);
        lemma_sorted_contains::<Decision>(decisions_of(parsed), d);
        assert(decisions_of(parsed).to_multiset().count(d) > 0);
    }
    assert forall|f: ForceView| #[trigger] kept_forces(parsed).contains(f) implies parsed.contains(
        ParsedView::Force(f),
    ) by {
        lemma_first_among_forces(decision_ids(ds), fs, f);
        lemma_sorted_contains::<Force>(forces_of(parsed), f);
        assert(forces_of(parsed).to_multiset().count(f) > 0);
    }
}

/// The forces that are kept have a history, if whatever was read is well read.
pub proof fn law_kept_forces_have_history(parsed: Seq<ParsedView>)
    requires
        forall|p: ParsedView| #[trigger] parsed.contains(p) ==> well_read(p),
    ensures
        forall|i: int|
            0 <= i < kept_forces(parsed).len() ==> valid_log(
                (#[trigger] kept_forces(parsed)[i]).status_log,
            ),
{
    law_kept_were_read(parsed);
    assert forall|i: int| 0 <= i < kept_forces(parsed).len() implies valid_log(
        (#[trigger] kept_forces(parsed)[i]).status_log,
    ) by {
        let f = kept_forces(parsed)[i];
        assert(kept_forces(parsed).contains(f));
        assert(well_read(ParsedView::Force(f)));
    }
}

/// Whether no two records that were read have the same path.
pub open spec fn distinct_paths(parsed: Seq<ParsedView>) -> bool {
    forall|p: ParsedView, q: ParsedView|
        parsed.contains(p) && parsed.contains(q) && id_of(p) is Some && id_of(q) is Some
            && components(#[trigger] path_of(p)) == components(#[trigger] path_of(q)) ==> p == q
}

/// The order in which files are read does not matter, if no two records have
/// the same path: the same records are kept, in the same order, the same is
/// wrong with them, and the same files are reported as no records.
pub proof fn law_link_ignores_order(a: Seq<ParsedView>, b: Seq<ParsedView>)
    requires
        a.to_multiset() == b.to_multiset(),
        distinct_paths(a),
    ensures
        kept_decisions(a) == kept_decisions(b),
        kept_forces(a) == kept_forces(b),
        record_problems(a) == record_problems(b),
        errors_of(a).to_multiset() == errors_of(b).to_multiset(),
{
    broadcast use vstd::seq_lib::group_to_multiset_ensures;

    lemma_counts(a);
    lemma_counts(b);
    assert(decisions_of(a).to_multiset() =~= decisions_of(b).to_multiset());
    assert(forces_of(a).to_multiset() =~= forces_of(b).to_multiset());
    assert forall|x: DecisionView, y: DecisionView|
        decisions_of(a).contains(x) && decisions_of(a).contains(y) && #[trigger] ties::<Decision>(
            x,
            y,
        ) implies x == y by {
        lemma_path_tie(x.path, y.path);
        let p = ParsedView::Decision(x);
        let q = ParsedView::Decision(y);
        assert(decisions_of(a).to_multiset().count(x) > 0);
        assert(decisions_of(a).to_multiset().count(y) > 0);
        assert(a.contains(p) && a.contains(q));
        assert(components(path_of(p)) == components(path_of(q)));
    }
    law_sorted_ignores_order::<Decision>(decisions_of(a), decisions_of(b));
    assert forall|x: ForceView, y: ForceView|
        forces_of(a).contains(x) && forces_of(a).contains(y) && #[trigger] ties::<Force>(
            x,
            y,
        ) implies x == y by {
        lemma_path_tie(x.path, y.path);
        let p = ParsedView::Force(x);
        let q = ParsedView::Force(y);
        assert(forces_of(a).to_multiset().count(x) > 0);
        assert(forces_of(a).to_multiset().count(y) > 0);
        assert(a.contains(p) && a.contains(q));
        assert(components(path_of(p)) == components(path_of(q)));
    }
    law_sorted_ignores_order::<Force>(forces_of(a), forces_of(b));
    assert(errors_of(a).to_multiset() =~= errors_of(b).to_multiset());
}

proof fn lemma_first_fewer(ds: Seq<DecisionView>)
    ensures
        first_decisions(ds).len() <= ds.len(),
    decreases ds.len(),
{
    if ds.len() > 0 {
        lemma_first_fewer(ds.drop_last());
    }
}

proof fn lemma_first_fewer_forces(taken: Seq<Seq<char>>, fs: Seq<ForceView>)
    ensures
        first_forces(taken, fs).len() <= fs.len(),
    decreases fs.len(),
{
    if fs.len() > 0 {
        lemma_first_fewer_forces(taken, fs.drop_last());
    }
}

/// No more records are kept than files were read.
pub proof fn law_kept_are_no_more(parsed: Seq<ParsedView>)
    ensures
        kept_decisions(parsed).len() + kept_forces(parsed).len() <= parsed.len(),
{
    lemma_counts(parsed);
    let ds = sorted::<Decision>(decisions_of(parsed));
    let fs = sorted::<Force>(forces_of(parsed));
    law_sorted_rearranges::<Decision>(decisions_of(parsed));
    law_sorted_rearranges::<Force>(forces_of(parsed));
    lemma_first_fewer(ds);
    lemma_first_fewer_forces(decision_ids(ds), fs);
}

/// The id of what was read, if it is a record.
pub open spec fn id_of(p: ParsedView) -> Option<Seq<char>> {
    match p {
        ParsedView::Decision(d) => Some(d.id),
        ParsedView::Force(f) => Some(f.id),
        ParsedView::Error(_) => None,
    }
}

spec fn has_decision_id(id: Seq<char>) -> spec_fn(DecisionView) -> bool {
    |d: DecisionView| d.id == id
}

spec fn has_force_id(id: Seq<char>) -> spec_fn(ForceView) -> bool {
    |f: ForceView| f.id == id
}

proof fn lemma_picked_decisions(ds: Seq<DecisionView>, id: Seq<char>)
    ensures
        picked(ds, has_decision_id(id)).len() > 0 <==> decision_ids(ds).contains(id),
{
    let some = picked(ds, has_decision_id(id));
    if some.len() > 0 {
        lemma_picked_contains(ds, has_decision_id(id), some[0]);
        assert(some.contains(some[0]));
        let i = choose|i: int| 0 <= i < ds.len() && ds[i] == some[0];
        assert(decision_ids(ds)[i] == id);
    }
    if decision_ids(ds).contains(id) {
        let i = choose|i: int| 0 <= i < decision_ids(ds).len() && decision_ids(ds)[i] == id;
        assert(ds.contains(ds[i]));
        lemma_picked_contains(ds, has_decision_id(id), ds[i]);
    }
}

proof fn lemma_picked_forces(fs: Seq<ForceView>, id: Seq<char>)
    ensures
        picked(fs, has_force_id(id)).len() > 0 <==> force_ids(fs).contains(id),
{
    let some = picked(fs, has_force_id(id));
    if some.len() > 0 {
        lemma_picked_contains(fs, has_force_id(id), some[0]);
        assert(some.contains(some[0]));
        let i = choose|i: int| 0 <= i < fs.len() && fs[i] == some[0];
        assert(force_ids(fs)[i] == id);
    }
    if force_ids(fs).contains(id) {
        let i = choose|i: int| 0 <= i < force_ids(fs).len() && force_ids(fs)[i] == id;
        assert(fs.contains(fs[i]));
        lemma_picked_contains(fs, has_force_id(id), fs[i]);
    }
}

/// A decision is kept exactly when it is the first with its id.
proof fn lemma_first_is_picked(ds: Seq<DecisionView>, d: DecisionView)
    ensures
        first_decisions(ds).contains(d) <==> picked(ds, has_decision_id(d.id)).len() > 0 && picked(
            ds,
            has_decision_id(d.id),
        )[0] == d,
    decreases ds.len(),
{
    let p = has_decision_id(d.id);
    if ds.len() > 0 {
        let t = ds.drop_last();
        let last = seq![ds.last()];
        lemma_first_is_picked(t, d);
        lemma_picked_sum(t, last, p);
        lemma_picked_decisions(t, d.id);
        lemma_push_contains(first_decisions(t), ds.last());
        assert(ds =~= t + last);
        assert(picked(last.drop_first(), p) =~= Seq::empty());
        assert(picked(last, p) =~= if p(ds.last()) {
            last
        } else {
            Seq::empty()
        });
    }
}

/// A force is kept exactly when it is the first with its id, and its id is not
/// taken.
proof fn lemma_first_is_picked_force(taken: Seq<Seq<char>>, fs: Seq<ForceView>, f: ForceView)
    ensures
        first_forces(taken, fs).contains(f) <==> !taken.contains(f.id) && picked(
            fs,
            has_force_id(f.id),
        ).len() > 0 && picked(fs, has_force_id(f.id))[0] == f,
    decreases fs.len(),
{
    let p = has_force_id(f.id);
    if fs.len() > 0 {
        let t = fs.drop_last();
        let last = seq![fs.last()];
        lemma_first_is_picked_force(taken, t, f);
        lemma_picked_sum(t, last, p);
        lemma_picked_forces(t, f.id);
        lemma_push_contains(first_forces(taken, t), fs.last());
        assert(fs =~= t + last);
        assert(picked(last.drop_first(), p) =~= Seq::empty());
        assert(picked(last, p) =~= if p(fs.last()) {
            last
        } else {
            Seq::empty()
        });
    }
}

proof fn lemma_divided_sum(a: Seq<ParsedView>, b: Seq<ParsedView>)
    ensures
        decisions_of(a + b) == decisions_of(a) + decisions_of(b),
        forces_of(a + b) == forces_of(a) + forces_of(b),
    decreases b.len(),
{
    if b.len() == 0 {
        assert(a + b =~= a);
        assert(decisions_of(a) + decisions_of(b) =~= decisions_of(a));
        assert(forces_of(a) + forces_of(b) =~= forces_of(a));
    } else {
        lemma_divided_sum(a, b.drop_last());
        assert((a + b).drop_last() =~= a + b.drop_last());
        assert(decisions_of(a + b) =~= decisions_of(a) + decisions_of(b));
        assert(forces_of(a + b) =~= forces_of(a) + forces_of(b));
    }
}

proof fn lemma_known(parsed: Seq<ParsedView>, id: Seq<char>)
    ensures
        known_ids(parsed).contains(id) <==> exists|p: ParsedView| #[trigger]
            parsed.contains(p) && id_of(p) == Some(id),
        decision_ids(sorted::<Decision>(decisions_of(parsed))).contains(id) <==> decision_ids(
            decisions_of(parsed),
        ).contains(id),
        decision_ids(decisions_of(parsed)).contains(id) ==> known_ids(parsed).contains(id),
        force_ids(forces_of(parsed)).contains(id) ==> known_ids(parsed).contains(id),
{
    broadcast use vstd::seq_lib::group_to_multiset_ensures;

    let ds = decisions_of(parsed);
    let fs = forces_of(parsed);
    let a = decision_ids(sorted::<Decision>(ds));
    let b = force_ids(sorted::<Force>(fs));
    lemma_counts(parsed);
    lemma_sum_contains(a, b);
    if a.contains(id) {
        let i = choose|i: int| 0 <= i < a.len() && a[i] == id;
        let d = sorted::<Decision>(ds)[i];
        assert(sorted::<Decision>(ds).contains(d));
        lemma_sorted_contains::<Decision>(ds, d);
        let j = choose|j: int| 0 <= j < ds.len() && ds[j] == d;
        assert(decision_ids(ds)[j] == id);
        assert(ds.to_multiset().count(d) > 0);
        assert(parsed.contains(ParsedView::Decision(d)));
    }
    if b.contains(id) {
        let i = choose|i: int| 0 <= i < b.len() && b[i] == id;
        let f = sorted::<Force>(fs)[i];
        assert(sorted::<Force>(fs).contains(f));
        lemma_sorted_contains::<Force>(fs, f);
        assert(fs.to_multiset().count(f) > 0);
        assert(parsed.contains(ParsedView::Force(f)));
    }
    assert forall|d: DecisionView| ds.contains(d) implies a.contains(#[trigger] d.id) by {
        lemma_sorted_contains::<Decision>(ds, d);
        let i = choose|i: int|
            0 <= i < sorted::<Decision>(ds).len() && sorted::<Decision>(ds)[i] == d;
        assert(a[i] == d.id);
    }
    assert forall|f: ForceView| fs.contains(f) implies b.contains(#[trigger] f.id) by {
        lemma_sorted_contains::<Force>(fs, f);
        let i = choose|i: int| 0 <= i < sorted::<Force>(fs).len() && sorted::<Force>(fs)[i] == f;
        assert(b[i] == f.id);
    }
    if decision_ids(ds).contains(id) {
        let j = choose|j: int| 0 <= j < decision_ids(ds).len() && decision_ids(ds)[j] == id;
        assert(ds.contains(ds[j]));
    }
    if force_ids(fs).contains(id) {
        let j = choose|j: int| 0 <= j < force_ids(fs).len() && force_ids(fs)[j] == id;
        assert(fs.contains(fs[j]));
    }
    if exists|p: ParsedView| #[trigger] parsed.contains(p) && id_of(p) == Some(id) {
        let p = choose|p: ParsedView| #[trigger] parsed.contains(p) && id_of(p) == Some(id);
        match p {
            ParsedView::Decision(d) => {
                assert(ds.to_multiset().count(d) > 0);
                assert(ds.contains(d));
            },
            ParsedView::Force(f) => {
                assert(fs.to_multiset().count(f) > 0);
                assert(fs.contains(f));
            },
            ParsedView::Error(_) => {},
        }
    }
}

/// A record is kept if no other record that was read has its id.
pub proof fn law_single_records_are_kept(parsed: Seq<ParsedView>, p: ParsedView)
    requires
        parsed.contains(p),
        id_of(p) is Some,
        forall|q: ParsedView| #[trigger] parsed.contains(q) && id_of(q) == id_of(p) ==> q == p,
    ensures
        match p {
            ParsedView::Decision(d) => kept_decisions(parsed).contains(d),
            ParsedView::Force(f) => kept_forces(parsed).contains(f),
            ParsedView::Error(_) => true,
        },
{
    let id = id_of(p)->0;
    lemma_known(parsed, id);
    law_linked_ids(parsed);
    law_kept_were_read(parsed);
    let a = decision_ids(kept_decisions(parsed));
    let b = force_ids(kept_forces(parsed));
    if a.contains(id) {
        let i = choose|i: int| 0 <= i < a.len() && a[i] == id;
        let d = kept_decisions(parsed)[i];
        assert(kept_decisions(parsed).contains(d));
        assert(parsed.contains(ParsedView::Decision(d)));
        assert(id_of(ParsedView::Decision(d)) == Some(id));
    } else {
        let i = choose|i: int| 0 <= i < b.len() && b[i] == id;
        let f = kept_forces(parsed)[i];
        assert(kept_forces(parsed).contains(f));
        assert(parsed.contains(ParsedView::Force(f)));
        assert(id_of(ParsedView::Force(f)) == Some(id));
    }
}

/// Where files with ids of their own are added, every record that was kept is
/// still kept.
pub proof fn law_added_files_leave_the_rest(parsed: Seq<ParsedView>, more: Seq<ParsedView>)
    requires
        forall|q: ParsedView| #[trigger]
            more.contains(q) && id_of(q) is Some ==> !known_ids(parsed).contains(id_of(q)->0),
    ensures
        forall|d: DecisionView| #[trigger]
            kept_decisions(parsed).contains(d) ==> kept_decisions(parsed + more).contains(d),
        forall|f: ForceView| #[trigger]
            kept_forces(parsed).contains(f) ==> kept_forces(parsed + more).contains(f),
{
    let ds = decisions_of(parsed);
    let fs = forces_of(parsed);
    lemma_divided_sum(parsed, more);
    assert forall|d: DecisionView| #[trigger] kept_decisions(parsed).contains(d) implies
        kept_decisions(parsed + more).contains(d) by {
        lemma_kept_known(parsed, d.id);
        lemma_added_decisions(parsed, more, d.id);
        lemma_first_is_picked(sorted::<Decision>(ds), d);
        lemma_first_is_picked(sorted::<Decision>(ds + decisions_of(more)), d);
    }
    assert forall|f: ForceView| #[trigger] kept_forces(parsed).contains(f) implies kept_forces(
        parsed + more,
    ).contains(f) by {
        let taken = decision_ids(sorted::<Decision>(ds));
        let all_taken = decision_ids(sorted::<Decision>(ds + decisions_of(more)));
        lemma_kept_known(parsed, f.id);
        lemma_added_decisions(parsed, more, f.id);
        lemma_added_forces(parsed, more, f.id);
        lemma_picked_decisions(sorted::<Decision>(ds), f.id);
        lemma_picked_decisions(sorted::<Decision>(ds + decisions_of(more)), f.id);
        lemma_first_is_picked_force(taken, sorted::<Force>(fs), f);
        lemma_first_is_picked_force(all_taken, sorted::<Force>(fs + forces_of(more)), f);
    }
}

proof fn lemma_kept_known(parsed: Seq<ParsedView>, id: Seq<char>)
    ensures
        forall|d: DecisionView| #[trigger]
            kept_decisions(parsed).contains(d) && d.id == id ==> known_ids(parsed).contains(id),
        forall|f: ForceView| #[trigger]
            kept_forces(parsed).contains(f) && f.id == id ==> known_ids(parsed).contains(id),
{
    law_kept_were_read(parsed);
    lemma_known(parsed, id);
    assert forall|d: DecisionView| #[trigger]
        kept_decisions(parsed).contains(d) && d.id == id implies known_ids(parsed).contains(id) by {
        assert(parsed.contains(ParsedView::Decision(d)));
        assert(id_of(ParsedView::Decision(d)) == Some(id));
    }
    assert forall|f: ForceView| #[trigger] kept_forces(parsed).contains(f) && f.id == id implies
        known_ids(parsed).contains(id) by {
        assert(parsed.contains(ParsedView::Force(f)));
        assert(id_of(ParsedView::Force(f)) == Some(id));
    }
}

proof fn lemma_added_decisions(parsed: Seq<ParsedView>, more: Seq<ParsedView>, id: Seq<char>)
    requires
        known_ids(parsed).contains(id),
        forall|q: ParsedView| #[trigger]
            more.contains(q) && id_of(q) is Some ==> !known_ids(parsed).contains(id_of(q)->0),
    ensures
        picked(
            sorted::<Decision>(decisions_of(parsed) + decisions_of(more)),
            has_decision_id(id),
        ) == picked(sorted::<Decision>(decisions_of(parsed)), has_decision_id(id)),
{
    let p = has_decision_id(id);
    let ds = decisions_of(parsed);
    let es = decisions_of(more);
    lemma_picked_sum(ds, es, p);
    lemma_picked_sorted::<Decision>(ds + es, p);
    lemma_picked_sorted::<Decision>(ds, p);
    lemma_known(more, id);
    lemma_picked_decisions(es, id);
    assert(picked(ds, p) + picked(es, p) =~= picked(ds, p));
}

proof fn lemma_added_forces(parsed: Seq<ParsedView>, more: Seq<ParsedView>, id: Seq<char>)
    requires
        known_ids(parsed).contains(id),
        forall|q: ParsedView| #[trigger]
            more.contains(q) && id_of(q) is Some ==> !known_ids(parsed).contains(id_of(q)->0),
    ensures
        picked(sorted::<Force>(forces_of(parsed) + forces_of(more)), has_force_id(id)) == picked(
            sorted::<Force>(forces_of(parsed)),
            has_force_id(id),
        ),
{
    let p = has_force_id(id);
    let fs = forces_of(parsed);
    let gs = forces_of(more);
    lemma_picked_sum(fs, gs, p);
    lemma_picked_sorted::<Force>(fs + gs, p);
    lemma_picked_sorted::<Force>(fs, p);
    lemma_known(more, id);
    lemma_picked_forces(gs, id);
    assert(picked(fs, p) + picked(gs, p) =~= picked(fs, p));
}

/// The id of a record that was read is known.
pub proof fn lemma_read_is_known(parsed: Seq<ParsedView>, p: ParsedView)
    requires
        parsed.contains(p),
        id_of(p) is Some,
    ensures
        known_ids(parsed).contains(id_of(p)->0),
{
    lemma_known(parsed, id_of(p)->0);
}

/// Whether a file is read once: nothing else is read as the same.
pub open spec fn read_once(parsed: Seq<ParsedView>, j: int) -> bool {
    forall|i: int| 0 <= i < parsed.len() && #[trigger] parsed[i] == parsed[j] ==> i == j
}

proof fn lemma_read_once(parsed: Seq<ParsedView>, j: int)
    requires
        0 <= j < parsed.len(),
        read_once(parsed, j),
    ensures
        parsed.to_multiset().count(parsed[j]) == 1,
{
    broadcast use vstd::seq_lib::group_to_multiset_ensures;

    let p = parsed[j];
    let rest = parsed.remove(j);
    if rest.contains(p) {
        let i = choose|i: int| 0 <= i < rest.len() && rest[i] == p;
        if i < j {
            assert(parsed[i] == p);
        } else {
            assert(parsed[i + 1] == p);
        }
    }
    assert(rest.to_multiset().count(p) == 0);
    assert(rest.to_multiset() =~= parsed.to_multiset().remove(p));
    assert(parsed.contains(p));
}

proof fn lemma_divided_force(parsed: Seq<ParsedView>, j: int, f: ForceView, h: ForceView) -> (m: int)
    requires
        0 <= j < parsed.len(),
        parsed[j] == ParsedView::Force(f),
    ensures
        0 <= m < forces_of(parsed).len(),
        forces_of(parsed)[m] == f,
        forces_of(parsed.update(j, ParsedView::Force(h))) == forces_of(parsed).update(m, h),
        decisions_of(parsed.update(j, ParsedView::Force(h))) == decisions_of(parsed),
    decreases parsed.len(),
{
    let t = parsed.drop_last();
    let u = parsed.update(j, ParsedView::Force(h));
    if j == parsed.len() - 1 {
        assert(u.drop_last() =~= t);
        let m = forces_of(t).len() as int;
        assert(forces_of(u) =~= forces_of(parsed).update(m, h));
        m
    } else {
        let m = lemma_divided_force(t, j, f, h);
        assert(u.drop_last() =~= t.update(j, ParsedView::Force(h)));
        assert(u.last() == parsed.last());
        assert(forces_of(u) =~= forces_of(parsed).update(m, h));
        m
    }
}

proof fn lemma_divided_decision(
    parsed: Seq<ParsedView>,
    j: int,
    d: DecisionView,
    e: DecisionView,
) -> (m: int)
    requires
        0 <= j < parsed.len(),
        parsed[j] == ParsedView::Decision(d),
    ensures
        0 <= m < decisions_of(parsed).len(),
        decisions_of(parsed)[m] == d,
        decisions_of(parsed.update(j, ParsedView::Decision(e))) == decisions_of(parsed).update(m, e),
        forces_of(parsed.update(j, ParsedView::Decision(e))) == forces_of(parsed),
    decreases parsed.len(),
{
    let t = parsed.drop_last();
    let u = parsed.update(j, ParsedView::Decision(e));
    if j == parsed.len() - 1 {
        assert(u.drop_last() =~= t);
        let m = decisions_of(t).len() as int;
        assert(decisions_of(u) =~= decisions_of(parsed).update(m, e));
        m
    } else {
        let m = lemma_divided_decision(t, j, d, e);
        assert(u.drop_last() =~= t.update(j, ParsedView::Decision(e)));
        assert(u.last() == parsed.last());
        assert(decisions_of(u) =~= decisions_of(parsed).update(m, e));
        m
    }
}

proof fn lemma_first_update(taken: Seq<Seq<char>>, fs: Seq<ForceView>, n: int, h: ForceView) -> (k:
    int)
    requires
        0 <= n < fs.len(),
        h.id == fs[n].id,
        first_forces(taken, fs).contains(fs[n]),
        forall|i: int| 0 <= i < fs.len() && #[trigger] fs[i] == fs[n] ==> i == n,
    ensures
        0 <= k < first_forces(taken, fs).len(),
        first_forces(taken, fs)[k] == fs[n],
        first_forces(taken, fs.update(n, h)) == first_forces(taken, fs).update(k, h),
    decreases fs.len(),
{
    let t = fs.drop_last();
    let u = fs.update(n, h);
    let before = first_forces(taken, t);
    lemma_push_contains(before, fs.last());
    if n == fs.len() - 1 {
        assert(u.drop_last() =~= t);
        if before.contains(fs[n]) {
            lemma_first_among_forces(taken, t, fs[n]);
            let i = choose|i: int| 0 <= i < t.len() && t[i] == fs[n];
            assert(fs[i] == fs[n]);
        }
        let k = before.len() as int;
        assert(first_forces(taken, u) =~= first_forces(taken, fs).update(k, h));
        k
    } else {
        assert(fs.last() != fs[n]);
        assert forall|i: int| 0 <= i < t.len() && #[trigger] t[i] == t[n] implies i == n by {
            assert(fs[i] == fs[n]);
        }
        let k = lemma_first_update(taken, t, n, h);
        assert(u.drop_last() =~= t.update(n, h));
        assert(force_ids(u.drop_last()) =~= force_ids(t));
        assert(first_forces(taken, u) =~= first_forces(taken, fs).update(k, h));
        k
    }
}

proof fn lemma_first_update_decision(ds: Seq<DecisionView>, n: int, e: DecisionView) -> (k: int)
    requires
        0 <= n < ds.len(),
        e.id == ds[n].id,
        first_decisions(ds).contains(ds[n]),
        forall|i: int| 0 <= i < ds.len() && #[trigger] ds[i] == ds[n] ==> i == n,
    ensures
        0 <= k < first_decisions(ds).len(),
        first_decisions(ds)[k] == ds[n],
        first_decisions(ds.update(n, e)) == first_decisions(ds).update(k, e),
    decreases ds.len(),
{
    let t = ds.drop_last();
    let u = ds.update(n, e);
    let before = first_decisions(t);
    lemma_push_contains(before, ds.last());
    if n == ds.len() - 1 {
        assert(u.drop_last() =~= t);
        if before.contains(ds[n]) {
            lemma_first_among(t, ds[n]);
            let i = choose|i: int| 0 <= i < t.len() && t[i] == ds[n];
            assert(ds[i] == ds[n]);
        }
        let k = before.len() as int;
        assert(first_decisions(u) =~= first_decisions(ds).update(k, e));
        k
    } else {
        assert(ds.last() != ds[n]);
        assert forall|i: int| 0 <= i < t.len() && #[trigger] t[i] == t[n] implies i == n by {
            assert(ds[i] == ds[n]);
        }
        let k = lemma_first_update_decision(t, n, e);
        assert(u.drop_last() =~= t.update(n, e));
        assert(decision_ids(u.drop_last()) =~= decision_ids(t));
        assert(first_decisions(u) =~= first_decisions(ds).update(k, e));
        k
    }
}

/// Where the file of a force that is kept is changed, and the force keeps its
/// id, only that force changes. Its place is given.
pub proof fn lemma_changed_force(parsed: Seq<ParsedView>, j: int, f: ForceView, h: ForceView) -> (k:
    int)
    requires
        0 <= j < parsed.len(),
        parsed[j] == ParsedView::Force(f),
        read_once(parsed, j),
        kept_forces(parsed).contains(f),
        h.id == f.id,
        h.path == f.path,
    ensures
        0 <= k < kept_forces(parsed).len(),
        kept_forces(parsed)[k] == f,
        kept_forces(parsed.update(j, ParsedView::Force(h))) == kept_forces(parsed).update(k, h),
        kept_decisions(parsed.update(j, ParsedView::Force(h))) == kept_decisions(parsed),
{
    let fs = forces_of(parsed);
    let m = lemma_divided_force(parsed, j, f, h);
    let n = lemma_sorted_update::<Force>(fs, m, h);
    let all = sorted::<Force>(fs);
    lemma_read_once(parsed, j);
    lemma_counts(parsed);
    assert(fs.to_multiset().count(f) == 1);
    assert forall|i: int| 0 <= i < all.len() && #[trigger] all[i] == all[n] implies i == n by {
        lemma_sorted_once::<Force>(fs, f, i, n);
    }
    lemma_first_update(decision_ids(sorted::<Decision>(decisions_of(parsed))), all, n, h)
}

/// Where the file of a decision that is kept is changed, and the decision keeps
/// its id, only that decision changes. Its place is given.
pub proof fn lemma_changed_decision(
    parsed: Seq<ParsedView>,
    j: int,
    d: DecisionView,
    e: DecisionView,
) -> (k: int)
    requires
        0 <= j < parsed.len(),
        parsed[j] == ParsedView::Decision(d),
        read_once(parsed, j),
        kept_decisions(parsed).contains(d),
        e.id == d.id,
        e.path == d.path,
    ensures
        0 <= k < kept_decisions(parsed).len(),
        kept_decisions(parsed)[k] == d,
        kept_decisions(parsed.update(j, ParsedView::Decision(e))) == kept_decisions(parsed).update(
            k,
            e,
        ),
        kept_forces(parsed.update(j, ParsedView::Decision(e))) == kept_forces(parsed),
{
    let ds = decisions_of(parsed);
    let m = lemma_divided_decision(parsed, j, d, e);
    let n = lemma_sorted_update::<Decision>(ds, m, e);
    let all = sorted::<Decision>(ds);
    lemma_read_once(parsed, j);
    lemma_counts(parsed);
    assert(ds.to_multiset().count(d) == 1);
    assert forall|i: int| 0 <= i < all.len() && #[trigger] all[i] == all[n] implies i == n by {
        lemma_sorted_once::<Decision>(ds, d, i, n);
    }
    assert(decision_ids(all.update(n, e)) =~= decision_ids(all));
    lemma_first_update_decision(all, n, e)
}

proof fn lemma_unanswered(
    from: Seq<char>,
    field: RefField,
    targets: Seq<Seq<char>>,
    known: Seq<Seq<char>>,
    x: DiagnosticView,
)
    ensures
        unanswered(from, field, targets, known).contains(x) <==> match x {
            DiagnosticView::DanglingRef { from: a, field: b, to } => a == from && b == field
                && targets.contains(to) && !known.contains(to),
            _ => false,
        },
    decreases targets.len(),
{
    if targets.len() > 0 {
        let t = targets.drop_last();
        let last = targets.last();
        lemma_unanswered(from, field, t, known, x);
        lemma_push_contains(t, last);
        assert(t.push(last) =~= targets);
        lemma_push_contains(
            unanswered(from, field, t, known),
            DiagnosticView::DanglingRef { from, field, to: last },
        );
    }
}

/// Whether a decision refers to an id in the given field.
pub open spec fn decision_names(d: DecisionView, field: RefField, to: Seq<char>) -> bool {
    match field {
        RefField::Cites => d.cites.contains(to),
        RefField::Supersedes => d.supersedes.contains(to),
        RefField::Relates => d.relates.contains(to),
        RefField::DependsOn => false,
        RefField::SupersededBy => false,
    }
}

/// Whether a force refers to an id in the given field.
pub open spec fn force_names(f: ForceView, field: RefField, to: Seq<char>) -> bool {
    match field {
        RefField::Cites => false,
        RefField::Supersedes => false,
        RefField::Relates => false,
        RefField::DependsOn => f.depends_on.contains(to),
        RefField::SupersededBy => f.superseded_by == Some(to),
    }
}

proof fn lemma_dangling_decisions(
    ds: Seq<DecisionView>,
    known: Seq<Seq<char>>,
    x: DiagnosticView,
)
    ensures
        dangling_decisions(ds, known).contains(x) <==> match x {
            DiagnosticView::DanglingRef { from, field, to } => !known.contains(to) && exists|i: int|
                0 <= i < ds.len() && (#[trigger] ds[i]).id == from && decision_names(
                    ds[i],
                    field,
                    to,
                ),
            _ => false,
        },
    decreases ds.len(),
{
    if ds.len() > 0 {
        let t = ds.drop_last();
        let d = ds.last();
        lemma_dangling_decisions(t, known, x);
        let a = unanswered(d.id, RefField::Cites, d.cites, known);
        let b = unanswered(d.id, RefField::Supersedes, d.supersedes, known);
        let c = unanswered(d.id, RefField::Relates, d.relates, known);
        let before = dangling_decisions(t, known);
        lemma_unanswered(d.id, RefField::Cites, d.cites, known, x);
        lemma_unanswered(d.id, RefField::Supersedes, d.supersedes, known, x);
        lemma_unanswered(d.id, RefField::Relates, d.relates, known, x);
        lemma_sum_contains(before, a);
        lemma_sum_contains(before + a, b);
        lemma_sum_contains(before + a + b, c);
        if let DiagnosticView::DanglingRef { from, field, to } = x {
            if before.contains(x) {
                let i = choose|i: int|
                    0 <= i < t.len() && (#[trigger] t[i]).id == from && decision_names(
                        t[i],
                        field,
                        to,
                    );
                assert(ds[i].id == from);
            }
            if exists|i: int|
                0 <= i < ds.len() && (#[trigger] ds[i]).id == from && decision_names(
                    ds[i],
                    field,
                    to,
                ) {
                let i = choose|i: int|
                    0 <= i < ds.len() && (#[trigger] ds[i]).id == from && decision_names(
                        ds[i],
                        field,
                        to,
                    );
                if i < t.len() {
                    assert(t[i].id == from);
                }
            }
            if d.id == from && decision_names(d, field, to) {
                assert(ds[ds.len() - 1].id == from);
            }
        }
    }
}

proof fn lemma_dangling_forces(fs: Seq<ForceView>, known: Seq<Seq<char>>, x: DiagnosticView)
    ensures
        dangling_forces(fs, known).contains(x) <==> match x {
            DiagnosticView::DanglingRef { from, field, to } => !known.contains(to) && exists|i: int|
                0 <= i < fs.len() && (#[trigger] fs[i]).id == from && force_names(fs[i], field, to),
            _ => false,
        },
    decreases fs.len(),
{
    if fs.len() > 0 {
        let t = fs.drop_last();
        let f = fs.last();
        lemma_dangling_forces(t, known, x);
        let a = unanswered(f.id, RefField::DependsOn, f.depends_on, known);
        let b = unanswered(f.id, RefField::SupersededBy, as_list(f.superseded_by), known);
        let before = dangling_forces(t, known);
        lemma_unanswered(f.id, RefField::DependsOn, f.depends_on, known, x);
        lemma_unanswered(f.id, RefField::SupersededBy, as_list(f.superseded_by), known, x);
        lemma_sum_contains(before, a);
        lemma_sum_contains(before + a, b);
        if let DiagnosticView::DanglingRef { from, field, to } = x {
            assert(as_list(f.superseded_by).contains(to) <==> f.superseded_by == Some(to)) by {
                if let Some(y) = f.superseded_by {
                    assert(as_list(f.superseded_by)[0] == y);
                }
            }
            if before.contains(x) {
                let i = choose|i: int|
                    0 <= i < t.len() && (#[trigger] t[i]).id == from && force_names(t[i], field, to);
                assert(fs[i].id == from);
            }
            if exists|i: int|
                0 <= i < fs.len() && (#[trigger] fs[i]).id == from && force_names(
                    fs[i],
                    field,
                    to,
                ) {
                let i = choose|i: int|
                    0 <= i < fs.len() && (#[trigger] fs[i]).id == from && force_names(
                        fs[i],
                        field,
                        to,
                    );
                if i < t.len() {
                    assert(t[i].id == from);
                }
            }
            if f.id == from && force_names(f, field, to) {
                assert(fs[fs.len() - 1].id == from);
            }
        }
    }
}

/// The places at which an id stands.
proof fn lemma_paths_with(ps: Seq<(Seq<char>, Seq<char>)>, id: Seq<char>, path: Seq<char>)
    ensures
        paths_with(ps, id).contains(path) <==> exists|i: int|
            0 <= i < ps.len() && #[trigger] ps[i] == (id, path),
        paths_with(ps, id).len() > 0 <==> exists|i: int|
            0 <= i < ps.len() && (#[trigger] ps[i]).0 == id,
    decreases ps.len(),
{
    if ps.len() > 0 {
        let t = ps.drop_last();
        lemma_paths_with(t, id, path);
        lemma_push_contains(paths_with(t, id), ps.last().1);
        if paths_with(t, id).contains(path) {
            let i = choose|i: int| 0 <= i < t.len() && #[trigger] t[i] == (id, path);
            assert(ps[i] == (id, path));
        }
        if paths_with(t, id).len() > 0 {
            let i = choose|i: int| 0 <= i < t.len() && (#[trigger] t[i]).0 == id;
            assert(ps[i].0 == id);
        }
        if exists|i: int| 0 <= i < ps.len() && #[trigger] ps[i] == (id, path) {
            let i = choose|i: int| 0 <= i < ps.len() && #[trigger] ps[i] == (id, path);
            if i < t.len() {
                assert(t[i] == (id, path));
            }
        }
        if exists|i: int| 0 <= i < ps.len() && (#[trigger] ps[i]).0 == id {
            let i = choose|i: int| 0 <= i < ps.len() && (#[trigger] ps[i]).0 == id;
            if i < t.len() {
                assert(t[i].0 == id);
            }
        }
        if ps.last().0 == id {
            assert(ps[ps.len() - 1].0 == id);
        }
        if ps.last() == (id, path) {
            assert(ps[ps.len() - 1] == (id, path));
        }
    }
}

proof fn lemma_collisions(ps: Seq<(Seq<char>, Seq<char>)>, n: int, x: DiagnosticView)
    requires
        0 <= n <= ps.len(),
    ensures
        collisions(ps, n).contains(x) <==> match x {
            DiagnosticView::IdCollision { id, paths } => paths == paths_with(ps, id) && paths.len()
                > 1 && exists|i: int| 0 <= i < n && (#[trigger] ps[i]).0 == id,
            _ => false,
        },
        forall|a: int, b: int|
            0 <= a < b < collisions(ps, n).len() ==> collision_id(#[trigger] collisions(ps, n)[a])
                != collision_id(#[trigger] collisions(ps, n)[b]),
    decreases n,
{
    if n > 0 {
        lemma_collisions(ps, n - 1, x);
        let before = collisions(ps, n - 1);
        let id = ps[n - 1].0;
        let report = DiagnosticView::IdCollision { id, paths: paths_with(ps, id) };
        lemma_push_contains(before, report);
        lemma_paths_with(ps.take(n - 1), id, Seq::empty());
        assert(forall|i: int| 0 <= i < n - 1 ==> #[trigger] ps.take(n - 1)[i] == ps[i]);
        if exists|i: int| 0 <= i < n - 1 && (#[trigger] ps[i]).0 == id {
            let i = choose|i: int| 0 <= i < n - 1 && (#[trigger] ps[i]).0 == id;
            assert(ps.take(n - 1)[i].0 == id);
        }
        let all = collisions(ps, n);
        assert forall|a: int, b: int| 0 <= a < b < all.len() implies collision_id(
            #[trigger] all[a],
        ) != collision_id(#[trigger] all[b]) by {
            if b < before.len() {
                assert(all[a] == before[a] && all[b] == before[b]);
            } else {
                assert(all[a] == before[a]);
                lemma_collisions(ps, n - 1, before[a]);
                assert(before.contains(before[a]));
            }
        }
    }
}

/// The id that a report of a collision is on.
pub open spec fn collision_id(x: DiagnosticView) -> Option<Seq<char>> {
    match x {
        DiagnosticView::IdCollision { id, .. } => Some(id),
        _ => None,
    }
}

proof fn lemma_errors(parsed: Seq<ParsedView>, x: DiagnosticView)
    ensures
        errors_of(parsed).contains(x) <==> match x {
            DiagnosticView::ParseError { path, message } => parsed.contains(
                ParsedView::Error(ParseErrorView { path, message }),
            ),
            _ => false,
        },
{
    broadcast use vstd::seq_lib::group_to_multiset_ensures;

    lemma_counts(parsed);
    assert(errors_of(parsed).contains(x) <==> errors_of(parsed).to_multiset().count(x) > 0);
    if let DiagnosticView::ParseError { path, message } = x {
        let p = ParsedView::Error(ParseErrorView { path, message });
        assert(parsed.contains(p) <==> parsed.to_multiset().count(p) > 0);
    }
}

/// What the reports of linking hold.
proof fn lemma_reports(
    parsed: Seq<ParsedView>,
    linked: LinkedView,
    cs: Seq<Seq<Seq<char>>>,
    x: DiagnosticView,
)
    requires
        linked.diagnostics == link_problems(parsed) + cycle_reports(cs),
    ensures
        ({
            let ps = places(
                sorted::<Decision>(decisions_of(parsed)),
                sorted::<Force>(forces_of(parsed)),
            );
            linked.diagnostics.contains(x) <==> errors_of(parsed).contains(x) || collisions(
                ps,
                ps.len() as int,
            ).contains(x) || dangling_decisions(kept_decisions(parsed), known_ids(parsed)).contains(
                x,
            ) || dangling_forces(kept_forces(parsed), known_ids(parsed)).contains(x) || exists|
                k: int,
            |
                0 <= k < cs.len() && x == (DiagnosticView::DependsOnCycle {
                    members: #[trigger] cs[k],
                })
        }),
{
    let ps = places(sorted::<Decision>(decisions_of(parsed)), sorted::<Force>(forces_of(parsed)));
    let a = errors_of(parsed);
    let b = collisions(ps, ps.len() as int);
    let c = dangling_decisions(kept_decisions(parsed), known_ids(parsed));
    let d = dangling_forces(kept_forces(parsed), known_ids(parsed));
    let e = cycle_reports(cs);
    lemma_sum_contains(b, c);
    lemma_sum_contains(b + c, d);
    lemma_sum_contains(a, b + c + d);
    lemma_sum_contains(a + (b + c + d), e);
    if e.contains(x) {
        let k = choose|k: int| 0 <= k < e.len() && e[k] == x;
        assert(x == (DiagnosticView::DependsOnCycle { members: cs[k] }));
    }
    if exists|k: int|
        0 <= k < cs.len() && x == (DiagnosticView::DependsOnCycle { members: #[trigger] cs[k] }) {
        let k = choose|k: int|
            0 <= k < cs.len() && x == (DiagnosticView::DependsOnCycle {
                members: #[trigger] cs[k],
            });
        assert(e[k] == x);
    }
}

/// A reference is reported as dangling exactly where a record that is kept
/// names the id in that field and no record that is kept has it. Every such
/// reference is reported, and anchors never are.
pub proof fn law_every_dangling_reference_is_reported(
    parsed: Seq<ParsedView>,
    linked: LinkedView,
    from: Seq<char>,
    field: RefField,
    to: Seq<char>,
)
    requires
        links(parsed, linked),
    ensures
        linked.diagnostics.contains(DiagnosticView::DanglingRef { from, field, to }) <==> (match field {
            RefField::Cites => exists|i: int|
                0 <= i < linked.decisions.len() && (#[trigger] linked.decisions[i]).id == from
                    && linked.decisions[i].cites.contains(to),
            RefField::Supersedes => exists|i: int|
                0 <= i < linked.decisions.len() && (#[trigger] linked.decisions[i]).id == from
                    && linked.decisions[i].supersedes.contains(to),
            RefField::Relates => exists|i: int|
                0 <= i < linked.decisions.len() && (#[trigger] linked.decisions[i]).id == from
                    && linked.decisions[i].relates.contains(to),
            RefField::DependsOn => exists|i: int|
                0 <= i < linked.forces.len() && (#[trigger] linked.forces[i]).id == from
                    && linked.forces[i].depends_on.contains(to),
            RefField::SupersededBy => exists|i: int|
                0 <= i < linked.forces.len() && (#[trigger] linked.forces[i]).id == from
                    && linked.forces[i].superseded_by == Some(to),
        }) && (forall|i: int|
            0 <= i < linked.decisions.len() ==> (#[trigger] linked.decisions[i]).id != to) && (forall|
            i: int,
        |
            0 <= i < linked.forces.len() ==> (#[trigger] linked.forces[i]).id != to),
{
    let x = DiagnosticView::DanglingRef { from, field, to };
    let known = known_ids(parsed);
    let ps = places(sorted::<Decision>(decisions_of(parsed)), sorted::<Force>(forces_of(parsed)));
    let cs = choose|cs: Seq<Seq<Seq<char>>>|
        #![trigger cycle_reports(cs)]
        reports_cycles(linked.forces, cs) && linked.diagnostics == link_problems(parsed)
            + cycle_reports(cs);
    let ds = linked.decisions;
    let fs = linked.forces;
    lemma_reports(parsed, linked, cs, x);
    lemma_errors(parsed, x);
    lemma_collisions(ps, ps.len() as int, x);
    lemma_dangling_decisions(ds, known, x);
    lemma_dangling_forces(fs, known, x);
    law_linked_ids(parsed);
    lemma_ids_of(ds, fs, to);
    assert(forall|i: int|
        0 <= i < ds.len() ==> (decision_names(#[trigger] ds[i], field, to) ==> field != RefField::DependsOn
            && field != RefField::SupersededBy));
    if dangling_decisions(ds, known).contains(x) {
        let i = choose|i: int|
            0 <= i < ds.len() && (#[trigger] ds[i]).id == from && decision_names(ds[i], field, to);
        assert(linked.decisions[i].id == from);
    }
    if dangling_forces(fs, known).contains(x) {
        let i = choose|i: int|
            0 <= i < fs.len() && (#[trigger] fs[i]).id == from && force_names(fs[i], field, to);
        assert(linked.forces[i].id == from);
    }
    match field {
        RefField::Cites => {
            if exists|i: int|
                0 <= i < ds.len() && (#[trigger] ds[i]).id == from && ds[i].cites.contains(to) {
                let i = choose|i: int|
                    0 <= i < ds.len() && (#[trigger] ds[i]).id == from && ds[i].cites.contains(to);
                assert(decision_names(ds[i], field, to));
            }
        },
        RefField::Supersedes => {
            if exists|i: int|
                0 <= i < ds.len() && (#[trigger] ds[i]).id == from && ds[i].supersedes.contains(
                    to,
                ) {
                let i = choose|i: int|
                    0 <= i < ds.len() && (#[trigger] ds[i]).id == from && ds[i].supersedes.contains(
                        to,
                    );
                assert(decision_names(ds[i], field, to));
            }
        },
        RefField::Relates => {
            if exists|i: int|
                0 <= i < ds.len() && (#[trigger] ds[i]).id == from && ds[i].relates.contains(to) {
                let i = choose|i: int|
                    0 <= i < ds.len() && (#[trigger] ds[i]).id == from && ds[i].relates.contains(to);
                assert(decision_names(ds[i], field, to));
            }
        },
        RefField::DependsOn => {
            if exists|i: int|
                0 <= i < fs.len() && (#[trigger] fs[i]).id == from && fs[i].depends_on.contains(
                    to,
                ) {
                let i = choose|i: int|
                    0 <= i < fs.len() && (#[trigger] fs[i]).id == from && fs[i].depends_on.contains(
                        to,
                    );
                assert(force_names(fs[i], field, to));
            }
        },
        RefField::SupersededBy => {
            if exists|i: int|
                0 <= i < fs.len() && (#[trigger] fs[i]).id == from && fs[i].superseded_by == Some(
                    to,
                ) {
                let i = choose|i: int|
                    0 <= i < fs.len() && (#[trigger] fs[i]).id == from && fs[i].superseded_by
                        == Some(to);
                assert(force_names(fs[i], field, to));
            }
        },
    }
}

proof fn lemma_ids_of(ds: Seq<DecisionView>, fs: Seq<ForceView>, id: Seq<char>)
    ensures
        decision_ids(ds).contains(id) <==> exists|i: int|
            0 <= i < ds.len() && (#[trigger] ds[i]).id == id,
        force_ids(fs).contains(id) <==> exists|i: int|
            0 <= i < fs.len() && (#[trigger] fs[i]).id == id,
{
    let a = decision_ids(ds);
    let b = force_ids(fs);
    if a.contains(id) {
        let i = choose|i: int| 0 <= i < a.len() && a[i] == id;
        assert(ds[i].id == id);
    }
    if b.contains(id) {
        let i = choose|i: int| 0 <= i < b.len() && b[i] == id;
        assert(fs[i].id == id);
    }
    assert forall|i: int| 0 <= i < ds.len() && (#[trigger] ds[i]).id == id implies a.contains(id) by {
        assert(a[i] == id);
    }
    assert forall|i: int| 0 <= i < fs.len() && (#[trigger] fs[i]).id == id implies b.contains(id) by {
        assert(b[i] == id);
    }
}

/// Every file that is not a record is reported with its message, and no other
/// file is; and a root that is missing is no matter of linking.
pub proof fn law_every_unreadable_file_is_reported(
    parsed: Seq<ParsedView>,
    linked: LinkedView,
    path: Seq<char>,
    message: Seq<char>,
)
    requires
        links(parsed, linked),
    ensures
        linked.diagnostics.contains(DiagnosticView::ParseError { path, message })
            <==> parsed.contains(ParsedView::Error(ParseErrorView { path, message })),
        !linked.diagnostics.contains(DiagnosticView::MissingRoot { path }),
{
    let ps = places(sorted::<Decision>(decisions_of(parsed)), sorted::<Force>(forces_of(parsed)));
    let cs = choose|cs: Seq<Seq<Seq<char>>>|
        #![trigger cycle_reports(cs)]
        reports_cycles(linked.forces, cs) && linked.diagnostics == link_problems(parsed)
            + cycle_reports(cs);
    let x = DiagnosticView::ParseError { path, message };
    let y = DiagnosticView::MissingRoot { path };
    lemma_reports(parsed, linked, cs, x);
    lemma_reports(parsed, linked, cs, y);
    lemma_errors(parsed, x);
    lemma_errors(parsed, y);
    lemma_collisions(ps, ps.len() as int, x);
    lemma_collisions(ps, ps.len() as int, y);
    lemma_dangling_decisions(kept_decisions(parsed), known_ids(parsed), x);
    lemma_dangling_decisions(kept_decisions(parsed), known_ids(parsed), y);
    lemma_dangling_forces(kept_forces(parsed), known_ids(parsed), x);
    lemma_dangling_forces(kept_forces(parsed), known_ids(parsed), y);
}

/// How many of the files are records with the given id.
pub open spec fn files_with(parsed: Seq<ParsedView>, id: Seq<char>) -> nat
    decreases parsed.len(),
{
    if parsed.len() == 0 {
        0
    } else if id_of(parsed.last()) == Some(id) {
        files_with(parsed.drop_last(), id) + 1
    } else {
        files_with(parsed.drop_last(), id)
    }
}

proof fn lemma_picked_last<A>(s: Seq<A>, p: spec_fn(A) -> bool)
    requires
        s.len() > 0,
    ensures
        picked(s, p) == picked(s.drop_last(), p) + (if p(s.last()) {
            seq![s.last()]
        } else {
            Seq::empty()
        }),
{
    let t = s.drop_last();
    let last = seq![s.last()];
    lemma_picked_sum(t, last, p);
    assert(t + last =~= s);
    assert(picked(last.drop_first(), p) =~= Seq::empty());
    assert(picked(last, p) =~= if p(s.last()) {
        last
    } else {
        Seq::empty()
    });
}

proof fn lemma_files_with(parsed: Seq<ParsedView>, id: Seq<char>)
    ensures
        files_with(parsed, id) == picked(decisions_of(parsed), has_decision_id(id)).len() + picked(
            forces_of(parsed),
            has_force_id(id),
        ).len(),
    decreases parsed.len(),
{
    if parsed.len() > 0 {
        lemma_files_with(parsed.drop_last(), id);
        let ds = decisions_of(parsed);
        let fs = forces_of(parsed);
        match parsed.last() {
            ParsedView::Decision(d) => {
                lemma_picked_last(ds, has_decision_id(id));
                assert(ds.drop_last() =~= decisions_of(parsed.drop_last()));
            },
            ParsedView::Force(f) => {
                lemma_picked_last(fs, has_force_id(id));
                assert(fs.drop_last() =~= forces_of(parsed.drop_last()));
            },
            ParsedView::Error(_) => {},
        }
    }
}

proof fn lemma_paths_sum(
    a: Seq<(Seq<char>, Seq<char>)>,
    b: Seq<(Seq<char>, Seq<char>)>,
    id: Seq<char>,
)
    ensures
        paths_with(a + b, id) == paths_with(a, id) + paths_with(b, id),
    decreases b.len(),
{
    if b.len() == 0 {
        assert(a + b =~= a);
        assert(paths_with(a, id) + paths_with(b, id) =~= paths_with(a, id));
    } else {
        lemma_paths_sum(a, b.drop_last(), id);
        assert((a + b).drop_last() =~= a + b.drop_last());
        assert(paths_with(a + b, id) =~= paths_with(a, id) + paths_with(b, id));
    }
}

proof fn lemma_decision_paths(ds: Seq<DecisionView>, id: Seq<char>)
    ensures
        paths_with(ds.map_values(|d: DecisionView| (d.id, d.path)), id) == picked(
            ds,
            has_decision_id(id),
        ).map_values(|d: DecisionView| d.path),
    decreases ds.len(),
{
    let all = ds.map_values(|d: DecisionView| (d.id, d.path));
    if ds.len() > 0 {
        let t = ds.drop_last();
        lemma_decision_paths(t, id);
        lemma_picked_last(ds, has_decision_id(id));
        assert(all.drop_last() =~= t.map_values(|d: DecisionView| (d.id, d.path)));
        assert(paths_with(all, id) =~= picked(ds, has_decision_id(id)).map_values(
            |d: DecisionView| d.path,
        ));
    } else {
        assert(paths_with(all, id) =~= picked(ds, has_decision_id(id)).map_values(
            |d: DecisionView| d.path,
        ));
    }
}

proof fn lemma_force_paths(fs: Seq<ForceView>, id: Seq<char>)
    ensures
        paths_with(fs.map_values(|f: ForceView| (f.id, f.path)), id) == picked(
            fs,
            has_force_id(id),
        ).map_values(|f: ForceView| f.path),
    decreases fs.len(),
{
    let all = fs.map_values(|f: ForceView| (f.id, f.path));
    if fs.len() > 0 {
        let t = fs.drop_last();
        lemma_force_paths(t, id);
        lemma_picked_last(fs, has_force_id(id));
        assert(all.drop_last() =~= t.map_values(|f: ForceView| (f.id, f.path)));
        assert(paths_with(all, id) =~= picked(fs, has_force_id(id)).map_values(
            |f: ForceView| f.path,
        ));
    } else {
        assert(paths_with(all, id) =~= picked(fs, has_force_id(id)).map_values(
            |f: ForceView| f.path,
        ));
    }
}

/// The paths at which an id is read: of all files with the id, the one that is
/// kept first.
proof fn lemma_places_of(parsed: Seq<ParsedView>, id: Seq<char>)
    ensures
        ({
            let ps = places(
                sorted::<Decision>(decisions_of(parsed)),
                sorted::<Force>(forces_of(parsed)),
            );
            let paths = paths_with(ps, id);
            &&& paths.len() == files_with(parsed, id)
            &&& forall|path: Seq<char>| #[trigger]
                paths.contains(path) <==> exists|p: ParsedView| #[trigger]
                    parsed.contains(p) && id_of(p) == Some(id) && path_of(p) == path
            &&& paths.len() > 0 ==> (exists|d: DecisionView| #[trigger]
                kept_decisions(parsed).contains(d) && d.id == id && d.path == paths[0]) || (exists|
                f: ForceView,
            | #[trigger]
                kept_forces(parsed).contains(f) && f.id == id && f.path == paths[0])
        }),
{
    broadcast use vstd::seq_lib::group_to_multiset_ensures;

    let ds = decisions_of(parsed);
    let fs = forces_of(parsed);
    let sd = sorted::<Decision>(ds);
    let sf = sorted::<Force>(fs);
    let ps = places(sd, sf);
    let paths = paths_with(ps, id);
    let p = has_decision_id(id);
    let q = has_force_id(id);
    lemma_paths_sum(
        sd.map_values(|d: DecisionView| (d.id, d.path)),
        sf.map_values(|f: ForceView| (f.id, f.path)),
        id,
    );
    lemma_decision_paths(sd, id);
    lemma_force_paths(sf, id);
    lemma_picked_sorted::<Decision>(ds, p);
    lemma_picked_sorted::<Force>(fs, q);
    law_sorted_rearranges::<Decision>(picked(ds, p));
    law_sorted_rearranges::<Force>(picked(fs, q));
    lemma_files_with(parsed, id);
    lemma_counts(parsed);
    let a = picked(sd, p);
    let b = picked(sf, q);
    let ap = a.map_values(|d: DecisionView| d.path);
    let bp = b.map_values(|f: ForceView| f.path);
    assert(paths == ap + bp);
    assert forall|path: Seq<char>| #[trigger] paths.contains(path) <==> exists|r: ParsedView|
        #[trigger] parsed.contains(r) && id_of(r) == Some(id) && path_of(r) == path by {
        lemma_sum_contains(ap, bp);
        if ap.contains(path) {
            let i = choose|i: int| 0 <= i < ap.len() && ap[i] == path;
            lemma_picked_contains(sd, p, a[i]);
            assert(a.contains(a[i]));
            lemma_sorted_contains::<Decision>(ds, a[i]);
            assert(ds.to_multiset().count(a[i]) > 0);
            let r = ParsedView::Decision(a[i]);
            assert(parsed.contains(r) && id_of(r) == Some(id) && path_of(r) == path);
        }
        if bp.contains(path) {
            let i = choose|i: int| 0 <= i < bp.len() && bp[i] == path;
            lemma_picked_contains(sf, q, b[i]);
            assert(b.contains(b[i]));
            lemma_sorted_contains::<Force>(fs, b[i]);
            assert(fs.to_multiset().count(b[i]) > 0);
            let r = ParsedView::Force(b[i]);
            assert(parsed.contains(r) && id_of(r) == Some(id) && path_of(r) == path);
        }
        if exists|r: ParsedView| #[trigger]
            parsed.contains(r) && id_of(r) == Some(id) && path_of(r) == path {
            let r = choose|r: ParsedView| #[trigger]
                parsed.contains(r) && id_of(r) == Some(id) && path_of(r) == path;
            assert(parsed.to_multiset().count(r) > 0);
            match r {
                ParsedView::Decision(d) => {
                    assert(ds.to_multiset().count(d) > 0);
                    lemma_sorted_contains::<Decision>(ds, d);
                    lemma_picked_contains(sd, p, d);
                    let i = choose|i: int| 0 <= i < a.len() && a[i] == d;
                    assert(ap[i] == path);
                },
                ParsedView::Force(f) => {
                    assert(fs.to_multiset().count(f) > 0);
                    lemma_sorted_contains::<Force>(fs, f);
                    lemma_picked_contains(sf, q, f);
                    let i = choose|i: int| 0 <= i < b.len() && b[i] == f;
                    assert(bp[i] == path);
                },
                ParsedView::Error(_) => {},
            }
        }
    }
    if a.len() > 0 {
        lemma_picked_contains(sd, p, a[0]);
        assert(a.contains(a[0]));
        lemma_first_is_picked(sd, a[0]);
        assert(kept_decisions(parsed).contains(a[0]));
        assert(paths[0] == a[0].path);
    } else if b.len() > 0 {
        lemma_picked_contains(sf, q, b[0]);
        assert(b.contains(b[0]));
        lemma_picked_decisions(sd, id);
        lemma_first_is_picked_force(decision_ids(sd), sf, b[0]);
        assert(kept_forces(parsed).contains(b[0]));
        assert(paths[0] == b[0].path);
    }
}

/// A collision of an id is reported exactly where at least two files are
/// records with it. The report names the paths of all of them, as many as there
/// are, and first the path of the record that is kept.
pub proof fn law_every_collision_is_reported(
    parsed: Seq<ParsedView>,
    linked: LinkedView,
    id: Seq<char>,
    paths: Seq<Seq<char>>,
)
    requires
        links(parsed, linked),
    ensures
        (exists|all: Seq<Seq<char>>| #[trigger]
            linked.diagnostics.contains(DiagnosticView::IdCollision { id, paths: all }))
            <==> files_with(parsed, id) >= 2,
        linked.diagnostics.contains(DiagnosticView::IdCollision { id, paths }) ==> {
            &&& paths.len() == files_with(parsed, id)
            &&& forall|path: Seq<char>| #[trigger]
                paths.contains(path) <==> exists|p: ParsedView| #[trigger]
                    parsed.contains(p) && path_of(p) == path && match p {
                        ParsedView::Decision(d) => d.id == id,
                        ParsedView::Force(f) => f.id == id,
                        ParsedView::Error(_) => false,
                    }
            &&& (exists|i: int|
                0 <= i < linked.decisions.len() && (#[trigger] linked.decisions[i]).id == id
                    && linked.decisions[i].path == paths[0]) || (exists|i: int|
                0 <= i < linked.forces.len() && (#[trigger] linked.forces[i]).id == id
                    && linked.forces[i].path == paths[0])
        },
{
    let ps = places(sorted::<Decision>(decisions_of(parsed)), sorted::<Force>(forces_of(parsed)));
    let n = ps.len() as int;
    let cs = choose|cs: Seq<Seq<Seq<char>>>|
        #![trigger cycle_reports(cs)]
        reports_cycles(linked.forces, cs) && linked.diagnostics == link_problems(parsed)
            + cycle_reports(cs);
    let right = paths_with(ps, id);
    lemma_places_of(parsed, id);
    lemma_paths_with(ps, id, Seq::empty());
    assert forall|all: Seq<Seq<char>>| #[trigger]
        linked.diagnostics.contains(DiagnosticView::IdCollision { id, paths: all }) <==> all == right
        && all.len() > 1 by {
        let x = DiagnosticView::IdCollision { id, paths: all };
        lemma_reports(parsed, linked, cs, x);
        lemma_errors(parsed, x);
        lemma_collisions(ps, n, x);
        lemma_dangling_decisions(kept_decisions(parsed), known_ids(parsed), x);
        lemma_dangling_forces(kept_forces(parsed), known_ids(parsed), x);
    }
    if files_with(parsed, id) >= 2 {
        assert(linked.diagnostics.contains(DiagnosticView::IdCollision { id, paths: right }));
    }
    if linked.diagnostics.contains(DiagnosticView::IdCollision { id, paths }) {
        if exists|d: DecisionView| #[trigger]
            kept_decisions(parsed).contains(d) && d.id == id && d.path == paths[0] {
            let d = choose|d: DecisionView| #[trigger]
                kept_decisions(parsed).contains(d) && d.id == id && d.path == paths[0];
            let i = choose|i: int| 0 <= i < linked.decisions.len() && linked.decisions[i] == d;
            assert(linked.decisions[i].id == id);
        } else {
            let f = choose|f: ForceView| #[trigger]
                kept_forces(parsed).contains(f) && f.id == id && f.path == paths[0];
            let i = choose|i: int| 0 <= i < linked.forces.len() && linked.forces[i] == f;
            assert(linked.forces[i].id == id);
        }
        assert forall|path: Seq<char>| #[trigger] paths.contains(path) <==> exists|p: ParsedView|
            #[trigger] parsed.contains(p) && path_of(p) == path && match p {
                ParsedView::Decision(d) => d.id == id,
                ParsedView::Force(f) => f.id == id,
                ParsedView::Error(_) => false,
            } by {
            if paths.contains(path) {
                let p = choose|p: ParsedView| #[trigger]
                    parsed.contains(p) && id_of(p) == Some(id) && path_of(p) == path;
                assert(parsed.contains(p));
            }
            if exists|p: ParsedView| #[trigger]
                parsed.contains(p) && path_of(p) == path && match p {
                    ParsedView::Decision(d) => d.id == id,
                    ParsedView::Force(f) => f.id == id,
                    ParsedView::Error(_) => false,
                } {
                let p = choose|p: ParsedView| #[trigger]
                    parsed.contains(p) && path_of(p) == path && match p {
                        ParsedView::Decision(d) => d.id == id,
                        ParsedView::Force(f) => f.id == id,
                        ParsedView::Error(_) => false,
                    };
                assert(id_of(p) == Some(id));
            }
        }
    }
}

/// Of the decisions that were read with one id, the one whose path comes first
/// is kept, if no other has the same path.
pub proof fn law_the_first_decision_by_path_is_kept(parsed: Seq<ParsedView>, d: DecisionView)
    requires
        parsed.contains(ParsedView::Decision(d)),
        forall|e: DecisionView| #[trigger]
            parsed.contains(ParsedView::Decision(e)) && e.id == d.id && path_le(d.path, e.path)
                && path_le(e.path, d.path) ==> e == d,
    ensures
        kept_decisions(parsed).contains(d) <==> forall|e: DecisionView| #[trigger]
            parsed.contains(ParsedView::Decision(e)) && e.id == d.id ==> path_le(d.path, e.path),
{
    broadcast use vstd::seq_lib::group_to_multiset_ensures;

    let ds = decisions_of(parsed);
    let sd = sorted::<Decision>(ds);
    let p = has_decision_id(d.id);
    let a = picked(sd, p);
    lemma_counts(parsed);
    lemma_first_is_picked(sd, d);
    lemma_picked_sorted::<Decision>(ds, p);
    law_sorted_in_order::<Decision>(picked(ds, p));
    assert forall|e: DecisionView| a.contains(e) <==> e.id == d.id && #[trigger] parsed.contains(
        ParsedView::Decision(e),
    ) by {
        lemma_picked_contains(sd, p, e);
        lemma_sorted_contains::<Decision>(ds, e);
        assert(ds.contains(e) <==> ds.to_multiset().count(e) > 0);
        assert(parsed.contains(ParsedView::Decision(e)) <==> parsed.to_multiset().count(
            ParsedView::Decision(e),
        ) > 0);
    }
    assert(a.contains(d));
    if kept_decisions(parsed).contains(d) {
        assert forall|e: DecisionView| #[trigger]
            parsed.contains(ParsedView::Decision(e)) && e.id == d.id implies path_le(
            d.path,
            e.path,
        ) by {
            let i = choose|i: int| 0 <= i < a.len() && a[i] == e;
            assert(<Decision as Ordered>::le(a[0], a[i]));
        }
    }
    if forall|e: DecisionView| #[trigger]
        parsed.contains(ParsedView::Decision(e)) && e.id == d.id ==> path_le(d.path, e.path) {
        let i = choose|i: int| 0 <= i < a.len() && a[i] == d;
        assert(<Decision as Ordered>::le(a[0], a[i]));
        assert(a.contains(a[0]));
        assert(parsed.contains(ParsedView::Decision(a[0])));
    }
}

/// Of the forces that were read with one id, the one whose path comes first is
/// kept, if no other has the same path and no decision has the id.
pub proof fn law_the_first_force_by_path_is_kept(parsed: Seq<ParsedView>, f: ForceView)
    requires
        parsed.contains(ParsedView::Force(f)),
        forall|h: ForceView| #[trigger]
            parsed.contains(ParsedView::Force(h)) && h.id == f.id && path_le(f.path, h.path)
                && path_le(h.path, f.path) ==> h == f,
    ensures
        kept_forces(parsed).contains(f) <==> (forall|h: ForceView| #[trigger]
            parsed.contains(ParsedView::Force(h)) && h.id == f.id ==> path_le(f.path, h.path)) && (
        forall|d: DecisionView| #[trigger]
            parsed.contains(ParsedView::Decision(d)) ==> d.id != f.id),
{
    broadcast use vstd::seq_lib::group_to_multiset_ensures;

    let ds = decisions_of(parsed);
    let sd = sorted::<Decision>(ds);
    let fs = forces_of(parsed);
    let sf = sorted::<Force>(fs);
    let p = has_force_id(f.id);
    let a = picked(sf, p);
    lemma_counts(parsed);
    lemma_first_is_picked_force(decision_ids(sd), sf, f);
    lemma_picked_sorted::<Force>(fs, p);
    law_sorted_in_order::<Force>(picked(fs, p));
    lemma_known(parsed, f.id);
    lemma_ids_of(ds, fs, f.id);
    assert(decision_ids(sd).contains(f.id) <==> exists|d: DecisionView| #[trigger]
        parsed.contains(ParsedView::Decision(d)) && d.id == f.id) by {
        if decision_ids(ds).contains(f.id) {
            let i = choose|i: int| 0 <= i < ds.len() && (#[trigger] ds[i]).id == f.id;
            assert(ds.contains(ds[i]));
            assert(ds.to_multiset().count(ds[i]) > 0);
            assert(parsed.contains(ParsedView::Decision(ds[i])));
        }
        if exists|d: DecisionView| #[trigger]
            parsed.contains(ParsedView::Decision(d)) && d.id == f.id {
            let d = choose|d: DecisionView| #[trigger]
                parsed.contains(ParsedView::Decision(d)) && d.id == f.id;
            assert(parsed.to_multiset().count(ParsedView::Decision(d)) > 0);
            assert(ds.to_multiset().count(d) > 0);
            let i = choose|i: int| 0 <= i < ds.len() && ds[i] == d;
            assert(ds[i].id == f.id);
        }
    }
    assert forall|h: ForceView| a.contains(h) <==> h.id == f.id && #[trigger] parsed.contains(
        ParsedView::Force(h),
    ) by {
        lemma_picked_contains(sf, p, h);
        lemma_sorted_contains::<Force>(fs, h);
        assert(fs.contains(h) <==> fs.to_multiset().count(h) > 0);
        assert(parsed.contains(ParsedView::Force(h)) <==> parsed.to_multiset().count(
            ParsedView::Force(h),
        ) > 0);
    }
    assert(a.contains(f));
    if kept_forces(parsed).contains(f) {
        assert forall|h: ForceView| #[trigger]
            parsed.contains(ParsedView::Force(h)) && h.id == f.id implies path_le(f.path, h.path) by {
            let i = choose|i: int| 0 <= i < a.len() && a[i] == h;
            assert(<Force as Ordered>::le(a[0], a[i]));
        }
    }
    if forall|h: ForceView| #[trigger]
        parsed.contains(ParsedView::Force(h)) && h.id == f.id ==> path_le(f.path, h.path) {
        let i = choose|i: int| 0 <= i < a.len() && a[i] == f;
        assert(<Force as Ordered>::le(a[0], a[i]));
        assert(a.contains(a[0]));
        assert(parsed.contains(ParsedView::Force(a[0])));
    }
}

/// For every id that was read a record with it is kept, just one, and no other
/// ids are kept.
pub proof fn law_one_record_for_each_id(parsed: Seq<ParsedView>, linked: LinkedView, id: Seq<char>)
    requires
        links(parsed, linked),
    ensures
        files_with(parsed, id) > 0 <==> (exists|i: int|
            0 <= i < linked.decisions.len() && (#[trigger] linked.decisions[i]).id == id) || (
        exists|i: int| 0 <= i < linked.forces.len() && (#[trigger] linked.forces[i]).id == id),
        forall|i: int, j: int|
            0 <= i < j < linked.decisions.len() ==> (#[trigger] linked.decisions[i]).id != (
            #[trigger] linked.decisions[j]).id,
        forall|i: int, j: int|
            0 <= i < j < linked.forces.len() ==> (#[trigger] linked.forces[i]).id != (
            #[trigger] linked.forces[j]).id,
        forall|i: int, j: int|
            0 <= i < linked.decisions.len() && 0 <= j < linked.forces.len() ==> (
            #[trigger] linked.decisions[i]).id != (#[trigger] linked.forces[j]).id,
{
    let ds = linked.decisions;
    let fs = linked.forces;
    let a = decision_ids(ds);
    let b = force_ids(fs);
    law_linked_ids(parsed);
    lemma_ids_of(ds, fs, id);
    lemma_places_of(parsed, id);
    lemma_known(parsed, id);
    let ps = places(sorted::<Decision>(decisions_of(parsed)), sorted::<Force>(forces_of(parsed)));
    let paths = paths_with(ps, id);
    if paths.len() > 0 {
        assert(paths.contains(paths[0]));
        let p = choose|p: ParsedView| #[trigger]
            parsed.contains(p) && id_of(p) == Some(id) && path_of(p) == paths[0];
        assert(known_ids(parsed).contains(id));
    }
    if known_ids(parsed).contains(id) {
        let p = choose|p: ParsedView| #[trigger] parsed.contains(p) && id_of(p) == Some(id);
        assert(paths.contains(path_of(p)));
    }
    assert forall|i: int, j: int| 0 <= i < j < ds.len() implies (#[trigger] ds[i]).id != (
    #[trigger] ds[j]).id by {
        assert((a + b)[i] == ds[i].id && (a + b)[j] == ds[j].id);
    }
    assert forall|i: int, j: int| 0 <= i < j < fs.len() implies (#[trigger] fs[i]).id != (
    #[trigger] fs[j]).id by {
        assert((a + b)[a.len() + i] == fs[i].id && (a + b)[a.len() + j] == fs[j].id);
    }
    assert forall|i: int, j: int| 0 <= i < ds.len() && 0 <= j < fs.len() implies (
    #[trigger] ds[i]).id != (#[trigger] fs[j]).id by {
        assert((a + b)[i] == ds[i].id && (a + b)[a.len() + j] == fs[j].id);
    }
}

/// Whether forces rest on each other in a ring: each has the next among its
/// dependencies, and the last has the first.
pub open spec fn is_ring(forces: Seq<ForceView>, w: Seq<Seq<char>>) -> bool {
    &&& w.len() > 0
    &&& forall|i: int| 0 <= i < w.len() ==> #[trigger] depends_on_next(forces, w, i)
}

/// Whether a force with the id at `i` has the next id among its dependencies.
pub open spec fn depends_on_next(forces: Seq<ForceView>, w: Seq<Seq<char>>, i: int) -> bool {
    exists|k: int|
        0 <= k < forces.len() && (#[trigger] forces[k]).id == w[i] && forces[k].depends_on.contains(
            if i + 1 < w.len() {
                w[i + 1]
            } else {
                w[0]
            },
        )
}

proof fn lemma_ring(forces: Seq<ForceView>, w: Seq<Seq<char>>)
    ensures
        is_ring(forces, w) <==> is_round(forces, w),
{
    if is_round(forces, w) {
        assert forall|i: int| 0 <= i < w.len() implies #[trigger] depends_on_next(forces, w, i) by {
            assert(goes_on(forces, w, i));
        }
    }
    if is_ring(forces, w) {
        assert forall|i: int| 0 <= i < w.len() implies #[trigger] goes_on(forces, w, i) by {
            assert(depends_on_next(forces, w, i));
            let j = if i + 1 < w.len() {
                i + 1
            } else {
                0
            };
            assert(depends_on_next(forces, w, j));
            let k = choose|k: int|
                0 <= k < forces.len() && (#[trigger] forces[k]).id == w[j]
                    && forces[k].depends_on.contains(
                    if j + 1 < w.len() {
                        w[j + 1]
                    } else {
                        w[0]
                    },
                );
            assert(force_ids(forces)[k] == w[j]);
            assert(next_of(w, i) == w[j]);
        }
    }
}

/// Every cycle that is reported is a ring of kept forces, each once, in the
/// order of their ids; and wherever kept forces rest on each other in a ring, a
/// cycle is reported that holds two neighbours of it.
pub proof fn law_cycles_are_rings_of_dependencies(parsed: Seq<ParsedView>, linked: LinkedView)
    requires
        links(parsed, linked),
    ensures
        forall|members: Seq<Seq<char>>| #[trigger]
            linked.diagnostics.contains(DiagnosticView::DependsOnCycle { members }) ==> {
                &&& exists|w: Seq<Seq<char>>| #[trigger]
                    is_ring(linked.forces, w) && w.no_duplicates() && w.to_multiset()
                        == members.to_multiset()
                &&& forall|i: int, j: int|
                    0 <= i < j < members.len() ==> text_le(
                        #[trigger] members[i],
                        #[trigger] members[j],
                    )
            },
        forall|w: Seq<Seq<char>>| #[trigger]
            is_ring(linked.forces, w) ==> exists|members: Seq<Seq<char>>, i: int|
                #![trigger linked.diagnostics.contains(DiagnosticView::DependsOnCycle { members }), w[i]]
                linked.diagnostics.contains(DiagnosticView::DependsOnCycle { members }) && 0 <= i
                    < w.len() && members.contains(w[i]) && members.contains(
                    if i + 1 < w.len() {
                        w[i + 1]
                    } else {
                        w[0]
                    },
                ),
{
    let ps = places(sorted::<Decision>(decisions_of(parsed)), sorted::<Force>(forces_of(parsed)));
    let cs = choose|cs: Seq<Seq<Seq<char>>>|
        #![trigger cycle_reports(cs)]
        reports_cycles(linked.forces, cs) && linked.diagnostics == link_problems(parsed)
            + cycle_reports(cs);
    let fs = linked.forces;
    assert forall|members: Seq<Seq<char>>| #[trigger]
        linked.diagnostics.contains(DiagnosticView::DependsOnCycle { members }) implies {
        &&& exists|w: Seq<Seq<char>>| #[trigger]
            is_ring(fs, w) && w.no_duplicates() && w.to_multiset() == members.to_multiset()
        &&& forall|i: int, j: int|
            0 <= i < j < members.len() ==> text_le(#[trigger] members[i], #[trigger] members[j])
    } by {
        let x = DiagnosticView::DependsOnCycle { members };
        lemma_reports(parsed, linked, cs, x);
        lemma_errors(parsed, x);
        lemma_collisions(ps, ps.len() as int, x);
        lemma_dangling_decisions(kept_decisions(parsed), known_ids(parsed), x);
        lemma_dangling_forces(kept_forces(parsed), known_ids(parsed), x);
        let k = choose|k: int|
            0 <= k < cs.len() && x == (DiagnosticView::DependsOnCycle {
                members: #[trigger] cs[k],
            });
        assert(is_report(fs, cs[k]));
        let w = choose|w: Seq<Seq<char>>| #[trigger]
            is_cycle(fs, w) && cs[k] == sorted::<String>(w);
        lemma_ring(fs, w);
        law_sorted_rearranges::<String>(w);
        law_sorted_in_order::<String>(w);
        assert forall|i: int, j: int| 0 <= i < j < members.len() implies text_le(
            #[trigger] members[i],
            #[trigger] members[j],
        ) by {
            assert(<String as Ordered>::le(members[i], members[j]));
        }
    }
    assert forall|w: Seq<Seq<char>>| #[trigger] is_ring(fs, w) implies exists|
        members: Seq<Seq<char>>,
        i: int,
    |
        #![trigger linked.diagnostics.contains(DiagnosticView::DependsOnCycle { members }), w[i]]
        linked.diagnostics.contains(DiagnosticView::DependsOnCycle { members }) && 0 <= i < w.len()
            && members.contains(w[i]) && members.contains(
            if i + 1 < w.len() {
                w[i + 1]
            } else {
                w[0]
            },
        ) by {
        lemma_ring(fs, w);
        assert(shows(cs, w));
        let i = choose|i: int| 0 <= i < w.len() && #[trigger] shows_at(cs, w, i);
        let k = choose|k: int|
            0 <= k < cs.len() && (#[trigger] cs[k]).contains(w[i]) && cs[k].contains(next_of(w, i));
        let members = cs[k];
        let x = DiagnosticView::DependsOnCycle { members };
        lemma_reports(parsed, linked, cs, x);
        assert(linked.diagnostics.contains(DiagnosticView::DependsOnCycle { members }));
        assert(members.contains(w[i]));
    }
}

/// The references of a decision in one field.
pub open spec fn decision_refs(d: DecisionView, field: RefField) -> Seq<Seq<char>> {
    match field {
        RefField::Cites => d.cites,
        RefField::Supersedes => d.supersedes,
        RefField::Relates => d.relates,
        _ => Seq::empty(),
    }
}

/// The references of a force in one field.
pub open spec fn force_refs(f: ForceView, field: RefField) -> Seq<Seq<char>> {
    match field {
        RefField::DependsOn => f.depends_on,
        RefField::SupersededBy => if f.superseded_by is Some {
            seq![f.superseded_by->0]
        } else {
            Seq::empty()
        },
        _ => Seq::empty(),
    }
}

proof fn lemma_unanswered_count(
    from: Seq<char>,
    field: RefField,
    targets: Seq<Seq<char>>,
    known: Seq<Seq<char>>,
    a: Seq<char>,
    b: RefField,
    to: Seq<char>,
)
    ensures
        unanswered(from, field, targets, known).to_multiset().count(
            DiagnosticView::DanglingRef { from: a, field: b, to },
        ) == (if a == from && b == field && !known.contains(to) {
            targets.to_multiset().count(to)
        } else {
            0
        }),
    decreases targets.len(),
{
    broadcast use vstd::seq_lib::group_to_multiset_ensures;

    let x = DiagnosticView::DanglingRef { from: a, field: b, to };
    if targets.len() > 0 {
        let t = targets.drop_last();
        lemma_unanswered_count(from, field, t, known, a, b, to);
        assert(targets =~= t.push(targets.last()));
    } else {
        assert(unanswered(from, field, targets, known).to_multiset().count(x) == 0);
        assert(targets.to_multiset().count(to) == 0);
    }
}

proof fn lemma_sum_count(a: Seq<DiagnosticView>, b: Seq<DiagnosticView>, x: DiagnosticView)
    ensures
        (a + b).to_multiset().count(x) == a.to_multiset().count(x) + b.to_multiset().count(x),
{
    broadcast use vstd::seq_lib::group_to_multiset_ensures;

    vstd::seq_lib::lemma_multiset_commutative(a, b);
}

proof fn lemma_decision_count(
    ds: Seq<DecisionView>,
    known: Seq<Seq<char>>,
    from: Seq<char>,
    field: RefField,
    to: Seq<char>,
)
    requires
        forall|i: int, j: int|
            0 <= i < j < ds.len() ==> (#[trigger] ds[i]).id != (#[trigger] ds[j]).id,
    ensures
        ({
            let x = DiagnosticView::DanglingRef { from, field, to };
            let n = dangling_decisions(ds, known).to_multiset().count(x);
            &&& forall|i: int|
                0 <= i < ds.len() && (#[trigger] ds[i]).id == from ==> n == (if known.contains(to) {
                    0
                } else {
                    decision_refs(ds[i], field).to_multiset().count(to)
                })
            &&& (forall|i: int| 0 <= i < ds.len() ==> (#[trigger] ds[i]).id != from) ==> n == 0
        }),
    decreases ds.len(),
{
    broadcast use vstd::seq_lib::group_to_multiset_ensures;

    let x = DiagnosticView::DanglingRef { from, field, to };
    if ds.len() > 0 {
        let t = ds.drop_last();
        let n = t.len() as int;
        let d = ds.last();
        assert forall|i: int, j: int| 0 <= i < j < t.len() implies (#[trigger] t[i]).id != (
        #[trigger] t[j]).id by {
            assert(ds[i].id != ds[j].id);
        }
        lemma_decision_count(t, known, from, field, to);
        let a = dangling_decisions(t, known);
        let b = unanswered(d.id, RefField::Cites, d.cites, known);
        let c = unanswered(d.id, RefField::Supersedes, d.supersedes, known);
        let e = unanswered(d.id, RefField::Relates, d.relates, known);
        lemma_unanswered_count(d.id, RefField::Cites, d.cites, known, from, field, to);
        lemma_unanswered_count(d.id, RefField::Supersedes, d.supersedes, known, from, field, to);
        lemma_unanswered_count(d.id, RefField::Relates, d.relates, known, from, field, to);
        lemma_sum_count(a, b, x);
        lemma_sum_count(a + b, c, x);
        lemma_sum_count(a + b + c, e, x);
        let none = Seq::<Seq<char>>::empty();
        assert(none.to_multiset().count(to) == 0);
        if d.id == from {
            assert forall|j: int| 0 <= j < t.len() implies (#[trigger] t[j]).id != from by {
                assert(ds[j].id != ds[n].id);
            }
        }
        assert forall|i: int| 0 <= i < ds.len() && (#[trigger] ds[i]).id == from implies (a + b + c
            + e).to_multiset().count(x) == (if known.contains(to) {
            0
        } else {
            decision_refs(ds[i], field).to_multiset().count(to)
        }) by {
            if i < n {
                assert(t[i] == ds[i]);
                assert(ds[i].id != ds[n].id);
            }
        }
        if forall|i: int| 0 <= i < ds.len() ==> (#[trigger] ds[i]).id != from {
            assert(ds[n].id != from);
            assert forall|j: int| 0 <= j < t.len() implies (#[trigger] t[j]).id != from by {
                assert(ds[j].id != from);
            }
        }
    } else {
        assert(dangling_decisions(ds, known).to_multiset().count(x) == 0);
    }
}

proof fn lemma_force_count(
    fs: Seq<ForceView>,
    known: Seq<Seq<char>>,
    from: Seq<char>,
    field: RefField,
    to: Seq<char>,
)
    requires
        forall|i: int, j: int|
            0 <= i < j < fs.len() ==> (#[trigger] fs[i]).id != (#[trigger] fs[j]).id,
    ensures
        ({
            let x = DiagnosticView::DanglingRef { from, field, to };
            let n = dangling_forces(fs, known).to_multiset().count(x);
            &&& forall|i: int|
                0 <= i < fs.len() && (#[trigger] fs[i]).id == from ==> n == (if known.contains(to) {
                    0
                } else {
                    force_refs(fs[i], field).to_multiset().count(to)
                })
            &&& (forall|i: int| 0 <= i < fs.len() ==> (#[trigger] fs[i]).id != from) ==> n == 0
        }),
    decreases fs.len(),
{
    broadcast use vstd::seq_lib::group_to_multiset_ensures;

    let x = DiagnosticView::DanglingRef { from, field, to };
    if fs.len() > 0 {
        let t = fs.drop_last();
        let n = t.len() as int;
        let f = fs.last();
        assert forall|i: int, j: int| 0 <= i < j < t.len() implies (#[trigger] t[i]).id != (
        #[trigger] t[j]).id by {
            assert(fs[i].id != fs[j].id);
        }
        lemma_force_count(t, known, from, field, to);
        let a = dangling_forces(t, known);
        let by = as_list(f.superseded_by);
        let b = unanswered(f.id, RefField::DependsOn, f.depends_on, known);
        let c = unanswered(f.id, RefField::SupersededBy, by, known);
        lemma_unanswered_count(f.id, RefField::DependsOn, f.depends_on, known, from, field, to);
        lemma_unanswered_count(f.id, RefField::SupersededBy, by, known, from, field, to);
        lemma_sum_count(a, b, x);
        lemma_sum_count(a + b, c, x);
        let none = Seq::<Seq<char>>::empty();
        assert(none.to_multiset().count(to) == 0);
        if f.id == from {
            assert forall|j: int| 0 <= j < t.len() implies (#[trigger] t[j]).id != from by {
                assert(fs[j].id != fs[n].id);
            }
        }
        assert forall|i: int| 0 <= i < fs.len() && (#[trigger] fs[i]).id == from implies (a + b
            + c).to_multiset().count(x) == (if known.contains(to) {
            0
        } else {
            force_refs(fs[i], field).to_multiset().count(to)
        }) by {
            if i < n {
                assert(t[i] == fs[i]);
                assert(fs[i].id != fs[n].id);
            }
        }
        if forall|i: int| 0 <= i < fs.len() ==> (#[trigger] fs[i]).id != from {
            assert(fs[n].id != from);
            assert forall|j: int| 0 <= j < t.len() implies (#[trigger] t[j]).id != from by {
                assert(fs[j].id != from);
            }
        }
    } else {
        assert(dangling_forces(fs, known).to_multiset().count(x) == 0);
    }
}

/// A reference that no record answers to is reported as often as it is made:
/// once for each time that a kept record names it in a field.
pub proof fn law_dangling_references_are_counted(
    parsed: Seq<ParsedView>,
    linked: LinkedView,
    k: int,
    field: RefField,
    to: Seq<char>,
)
    requires
        links(parsed, linked),
        0 <= k,
        forall|i: int| 0 <= i < linked.decisions.len() ==> (#[trigger] linked.decisions[i]).id != to,
        forall|i: int| 0 <= i < linked.forces.len() ==> (#[trigger] linked.forces[i]).id != to,
    ensures
        k < linked.decisions.len() ==> linked.diagnostics.to_multiset().count(
            DiagnosticView::DanglingRef { from: linked.decisions[k].id, field, to },
        ) == decision_refs(linked.decisions[k], field).to_multiset().count(to),
        k < linked.forces.len() ==> linked.diagnostics.to_multiset().count(
            DiagnosticView::DanglingRef { from: linked.forces[k].id, field, to },
        ) == force_refs(linked.forces[k], field).to_multiset().count(to),
{
    let ds = linked.decisions;
    let fs = linked.forces;
    law_linked_ids(parsed);
    let ids = decision_ids(ds) + force_ids(fs);
    assert forall|i: int, j: int| 0 <= i < j < ds.len() implies (#[trigger] ds[i]).id != (
    #[trigger] ds[j]).id by {
        assert(ids[i] != ids[j]);
    }
    assert forall|i: int, j: int| 0 <= i < j < fs.len() implies (#[trigger] fs[i]).id != (
    #[trigger] fs[j]).id by {
        assert(ids[ds.len() + i] != ids[ds.len() + j]);
    }
    assert forall|i: int, j: int| 0 <= i < ds.len() && 0 <= j < fs.len() implies (
    #[trigger] ds[i]).id != (#[trigger] fs[j]).id by {
        assert(ids[i] != ids[ds.len() + j]);
    }
    let known = known_ids(parsed);
    if known.contains(to) {
        let a = decision_ids(ds);
        let b = force_ids(fs);
        if a.contains(to) {
            let i = choose|i: int| 0 <= i < a.len() && a[i] == to;
            assert(ds[i].id == to);
        } else {
            let i = choose|i: int| 0 <= i < b.len() && b[i] == to;
            assert(fs[i].id == to);
        }
    }
    if k < ds.len() {
        lemma_dangling_count(parsed, linked, ds[k].id, field, to);
        lemma_decision_count(ds, known, ds[k].id, field, to);
        lemma_force_count(fs, known, ds[k].id, field, to);
    }
    if k < fs.len() {
        lemma_dangling_count(parsed, linked, fs[k].id, field, to);
        lemma_decision_count(ds, known, fs[k].id, field, to);
        lemma_force_count(fs, known, fs[k].id, field, to);
    }
}

proof fn lemma_dangling_count(
    parsed: Seq<ParsedView>,
    linked: LinkedView,
    from: Seq<char>,
    field: RefField,
    to: Seq<char>,
)
    requires
        links(parsed, linked),
    ensures
        ({
            let x = DiagnosticView::DanglingRef { from, field, to };
            linked.diagnostics.to_multiset().count(x) == dangling_decisions(
                linked.decisions,
                known_ids(parsed),
            ).to_multiset().count(x) + dangling_forces(
                linked.forces,
                known_ids(parsed),
            ).to_multiset().count(x)
        }),
{
    broadcast use vstd::seq_lib::group_to_multiset_ensures;

    let ps = places(sorted::<Decision>(decisions_of(parsed)), sorted::<Force>(forces_of(parsed)));
    let cs = choose|cs: Seq<Seq<Seq<char>>>|
        #![trigger cycle_reports(cs)]
        reports_cycles(linked.forces, cs) && linked.diagnostics == link_problems(parsed)
            + cycle_reports(cs);
    let x = DiagnosticView::DanglingRef { from, field, to };
    let a = errors_of(parsed);
    let b = collisions(ps, ps.len() as int);
    let c = dangling_decisions(linked.decisions, known_ids(parsed));
    let d = dangling_forces(linked.forces, known_ids(parsed));
    let e = cycle_reports(cs);
    lemma_errors(parsed, x);
    lemma_collisions(ps, ps.len() as int, x);
    assert(!e.contains(x)) by {
        if e.contains(x) {
            let i = choose|i: int| 0 <= i < e.len() && e[i] == x;
        }
    }
    assert(a.to_multiset().count(x) == 0);
    assert(b.to_multiset().count(x) == 0);
    assert(e.to_multiset().count(x) == 0);
    lemma_sum_count(b, c, x);
    lemma_sum_count(b + c, d, x);
    lemma_sum_count(a, b + c + d, x);
    lemma_sum_count(a + (b + c + d), e, x);
}

/// Where a report stands among the others: files that are no records come
/// first, then ids that collide, then references that nothing answers to, and
/// then cycles.
pub open spec fn report_rank(x: DiagnosticView) -> int {
    match x {
        DiagnosticView::MissingRoot { .. } => 0,
        DiagnosticView::ParseError { .. } => 0,
        DiagnosticView::IdCollision { .. } => 1,
        DiagnosticView::DanglingRef { .. } => 2,
        DiagnosticView::DependsOnCycle { .. } => 3,
    }
}

spec fn are_ranked(s: Seq<DiagnosticView>, low: int, high: int) -> bool {
    &&& forall|i: int| 0 <= i < s.len() ==> low <= report_rank(#[trigger] s[i]) <= high
    &&& forall|i: int, j: int|
        0 <= i < j < s.len() ==> report_rank(#[trigger] s[i]) <= report_rank(#[trigger] s[j])
}

proof fn lemma_ranked_sum(a: Seq<DiagnosticView>, b: Seq<DiagnosticView>, low: int, mid: int, high: int)
    requires
        are_ranked(a, low, mid),
        are_ranked(b, mid, high),
        low <= mid <= high,
    ensures
        are_ranked(a + b, low, high),
{
    let s = a + b;
    assert forall|i: int| 0 <= i < s.len() implies low <= report_rank(#[trigger] s[i]) <= high by {
        if i < a.len() {
            assert(s[i] == a[i]);
        } else {
            assert(s[i] == b[i - a.len()]);
        }
    }
    assert forall|i: int, j: int| 0 <= i < j < s.len() implies report_rank(#[trigger] s[i])
        <= report_rank(#[trigger] s[j]) by {
        if j < a.len() {
            assert(s[i] == a[i] && s[j] == a[j]);
        } else if i < a.len() {
            assert(s[i] == a[i] && s[j] == b[j - a.len()]);
        } else {
            assert(s[i] == b[i - a.len()] && s[j] == b[j - a.len()]);
        }
    }
}

/// What is wrong is told in order: files that are no records, ids that collide,
/// references that nothing answers to, and cycles.
pub proof fn law_reports_are_told_in_order(
    parsed: Seq<ParsedView>,
    linked: LinkedView,
    i: int,
    j: int,
)
    requires
        links(parsed, linked),
        0 <= i < j < linked.diagnostics.len(),
    ensures
        report_rank(linked.diagnostics[i]) <= report_rank(linked.diagnostics[j]),
{
    let ps = places(sorted::<Decision>(decisions_of(parsed)), sorted::<Force>(forces_of(parsed)));
    let cs = choose|cs: Seq<Seq<Seq<char>>>|
        #![trigger cycle_reports(cs)]
        reports_cycles(linked.forces, cs) && linked.diagnostics == link_problems(parsed)
            + cycle_reports(cs);
    let known = known_ids(parsed);
    let a = errors_of(parsed);
    let b = collisions(ps, ps.len() as int);
    let c = dangling_decisions(linked.decisions, known);
    let d = dangling_forces(linked.forces, known);
    let e = cycle_reports(cs);
    assert forall|q: int| 0 <= q < a.len() implies report_rank(#[trigger] a[q]) == 0 by {
        lemma_errors(parsed, a[q]);
        assert(a.contains(a[q]));
    }
    assert forall|q: int| 0 <= q < b.len() implies report_rank(#[trigger] b[q]) == 1 by {
        lemma_collisions(ps, ps.len() as int, b[q]);
        assert(b.contains(b[q]));
    }
    assert forall|q: int| 0 <= q < c.len() implies report_rank(#[trigger] c[q]) == 2 by {
        lemma_dangling_decisions(linked.decisions, known, c[q]);
        assert(c.contains(c[q]));
    }
    assert forall|q: int| 0 <= q < d.len() implies report_rank(#[trigger] d[q]) == 2 by {
        lemma_dangling_forces(linked.forces, known, d[q]);
        assert(d.contains(d[q]));
    }
    assert forall|q: int| 0 <= q < e.len() implies report_rank(#[trigger] e[q]) == 3 by {}
    assert(are_ranked(a, 0, 1));
    assert(are_ranked(b, 1, 2));
    assert(are_ranked(c, 2, 2));
    assert(are_ranked(d, 2, 3));
    assert(are_ranked(e, 3, 3));
    lemma_ranked_sum(b, c, 1, 2, 2);
    lemma_ranked_sum(b + c, d, 1, 2, 3);
    lemma_ranked_sum(a, b + c + d, 0, 1, 3);
    lemma_ranked_sum(a + (b + c + d), e, 0, 3, 3);
}

proof fn lemma_first_decisions_order(ds: Seq<DecisionView>)
    requires
        in_order::<Decision>(ds),
    ensures
        in_order::<Decision>(first_decisions(ds)),
        forall|i: int|
            0 <= i < first_decisions(ds).len() ==> ds.contains(#[trigger] first_decisions(ds)[i]),
    decreases ds.len(),
{
    if ds.len() > 0 {
        let t = ds.drop_last();
        let n = t.len() as int;
        assert forall|i: int, j: int| 0 <= i <= j < t.len() implies #[trigger] <Decision as Ordered>::le(
            t[i],
            #[trigger] t[j],
        ) by {
            assert(<Decision as Ordered>::le(ds[i], ds[j]));
        }
        lemma_first_decisions_order(t);
        let a = first_decisions(t);
        let b = first_decisions(ds);
        assert forall|i: int| 0 <= i < b.len() implies ds.contains(#[trigger] b[i]) by {
            if i < a.len() {
                assert(b[i] == a[i]);
                let k = choose|k: int| 0 <= k < t.len() && t[k] == a[i];
                assert(ds[k] == b[i]);
            } else {
                assert(ds[n] == b[i]);
            }
        }
        assert forall|i: int, j: int| 0 <= i <= j < b.len() implies #[trigger] <Decision as Ordered>::le(
            b[i],
            #[trigger] b[j],
        ) by {
            if j < a.len() {
                assert(b[i] == a[i] && b[j] == a[j]);
                assert(<Decision as Ordered>::le(a[i], a[j]));
            } else if i < a.len() {
                assert(b[i] == a[i]);
                assert(t.contains(a[i]));
                let k = choose|k: int| 0 <= k < t.len() && t[k] == a[i];
                assert(<Decision as Ordered>::le(ds[k], ds[n]));
            } else {
                assert(<Decision as Ordered>::le(ds[n], ds[n]));
            }
        }
    }
}

proof fn lemma_first_forces_order(taken: Seq<Seq<char>>, fs: Seq<ForceView>)
    requires
        in_order::<Force>(fs),
    ensures
        in_order::<Force>(first_forces(taken, fs)),
        forall|i: int|
            0 <= i < first_forces(taken, fs).len() ==> fs.contains(
                #[trigger] first_forces(taken, fs)[i],
            ),
    decreases fs.len(),
{
    if fs.len() > 0 {
        let t = fs.drop_last();
        let n = t.len() as int;
        assert forall|i: int, j: int| 0 <= i <= j < t.len() implies #[trigger] <Force as Ordered>::le(
            t[i],
            #[trigger] t[j],
        ) by {
            assert(<Force as Ordered>::le(fs[i], fs[j]));
        }
        lemma_first_forces_order(taken, t);
        let a = first_forces(taken, t);
        let b = first_forces(taken, fs);
        assert forall|i: int| 0 <= i < b.len() implies fs.contains(#[trigger] b[i]) by {
            if i < a.len() {
                assert(b[i] == a[i]);
                let k = choose|k: int| 0 <= k < t.len() && t[k] == a[i];
                assert(fs[k] == b[i]);
            } else {
                assert(fs[n] == b[i]);
            }
        }
        assert forall|i: int, j: int| 0 <= i <= j < b.len() implies #[trigger] <Force as Ordered>::le(
            b[i],
            #[trigger] b[j],
        ) by {
            if j < a.len() {
                assert(b[i] == a[i] && b[j] == a[j]);
                assert(<Force as Ordered>::le(a[i], a[j]));
            } else if i < a.len() {
                assert(b[i] == a[i]);
                assert(t.contains(a[i]));
                let k = choose|k: int| 0 <= k < t.len() && t[k] == a[i];
                assert(<Force as Ordered>::le(fs[k], fs[n]));
            } else {
                assert(<Force as Ordered>::le(fs[n], fs[n]));
            }
        }
    }
}

/// The records that are kept are in the order of their paths.
pub proof fn law_kept_records_are_in_path_order(
    parsed: Seq<ParsedView>,
    linked: LinkedView,
    i: int,
    j: int,
)
    requires
        links(parsed, linked),
        0 <= i < j,
    ensures
        j < linked.decisions.len() ==> path_le(linked.decisions[i].path, linked.decisions[j].path),
        j < linked.forces.len() ==> path_le(linked.forces[i].path, linked.forces[j].path),
{
    let ds = sorted::<Decision>(decisions_of(parsed));
    let fs = sorted::<Force>(forces_of(parsed));
    law_sorted_in_order::<Decision>(decisions_of(parsed));
    law_sorted_in_order::<Force>(forces_of(parsed));
    lemma_first_decisions_order(ds);
    lemma_first_forces_order(decision_ids(ds), fs);
    if j < linked.decisions.len() {
        assert(<Decision as Ordered>::le(linked.decisions[i], linked.decisions[j]));
    }
    if j < linked.forces.len() {
        assert(<Force as Ordered>::le(linked.forces[i], linked.forces[j]));
    }
}

/// Cycles are told once each, in the order of their members.
pub proof fn law_cycles_are_told_in_order(
    parsed: Seq<ParsedView>,
    linked: LinkedView,
    i: int,
    j: int,
)
    requires
        links(parsed, linked),
        0 <= i < j < linked.diagnostics.len(),
        linked.diagnostics[i] is DependsOnCycle,
        linked.diagnostics[j] is DependsOnCycle,
    ensures
        texts_le(linked.diagnostics[i]->members, linked.diagnostics[j]->members),
        linked.diagnostics[i]->members != linked.diagnostics[j]->members,
{
    let ps = places(sorted::<Decision>(decisions_of(parsed)), sorted::<Force>(forces_of(parsed)));
    let cs = choose|cs: Seq<Seq<Seq<char>>>|
        #![trigger cycle_reports(cs)]
        reports_cycles(linked.forces, cs) && linked.diagnostics == link_problems(parsed)
            + cycle_reports(cs);
    let problems = link_problems(parsed);
    let n = problems.len() as int;
    let known = known_ids(parsed);
    assert forall|q: int| 0 <= q < n implies !((#[trigger] problems[q]) is DependsOnCycle) by {
        let x = problems[q];
        let a = errors_of(parsed);
        let b = collisions(ps, ps.len() as int);
        let c = dangling_decisions(kept_decisions(parsed), known);
        let d = dangling_forces(kept_forces(parsed), known);
        lemma_errors(parsed, x);
        lemma_collisions(ps, ps.len() as int, x);
        lemma_dangling_decisions(kept_decisions(parsed), known, x);
        lemma_dangling_forces(kept_forces(parsed), known, x);
        lemma_sum_contains(b, c);
        lemma_sum_contains(b + c, d);
        lemma_sum_contains(a, b + c + d);
        assert((a + (b + c + d)).contains(x));
    }
    if i < n {
        assert(linked.diagnostics[i] == problems[i]);
    }
    assert(linked.diagnostics[i] == cycle_reports(cs)[i - n]);
    assert(linked.diagnostics[j] == cycle_reports(cs)[j - n]);
    assert(texts_le(cs[i - n], cs[j - n]) && cs[i - n] != cs[j - n]);
}

} // verus!
