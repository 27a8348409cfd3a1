//! What was written is read back: a commit and a change of status, seen from
//! the corpus that is read after them.
use vstd::prelude::*;
use crate::commit::{
    commit_of, committed_decision, deprecated, extended, force_file, force_status, is_listed,
    is_replaced, is_warned, law_deprecating_keeps_the_content,
    law_setting_a_fall_makes_decisions_stale, law_setting_a_status_keeps_the_content,
    law_status_goes_forward, lemma_settled, lemma_settled_at, lemma_settled_in_order, record_path,
    settled, settled_place, status_change, warned_at, with_status, ReceiptView,
};
use crate::cycles::force_ids;
use crate::graph::{law_lookup, law_lookup_finds, GraphView, RecordView};
use crate::guardian::{new_force, news_before, ForceInputView, NearView, ProposeInputView};
use crate::ids::{base_id, free_id, law_new_ids_are_free};
use crate::judge::{
    is_superseded, judged, law_superseded_are_deprecated_or_named, rests_on, supersedes, verdict_on,
};
use crate::linker::{
    decision_ids, id_of, kept_decisions, kept_forces, known_ids, law_added_files_leave_the_rest,
    law_linked_ids, law_single_records_are_kept, lemma_changed_decision, lemma_changed_force,
    lemma_read_is_known, read_once,
};
use crate::paths::joined;
use crate::recall::HitView;
use crate::record::{
    iso_day, reads, well_read, DecisionStatus, DecisionView, ForceStatus, ForceView, ParsedView, RawRecord,
};
use crate::score::Double;
use crate::serialize::{
    decision_fields, decision_lines, decodes, file_text, force_fields, force_lines,
    is_one_line, law_decision_round_trip, law_force_round_trip,
};
use crate::snapshot::lemma_distinct_ids;
use crate::text::{joined_texts, lemma_push_contains};

verus! {

/// The records of a corpus, as they are kept of what was read.
pub open spec fn graph_of(parsed: Seq<ParsedView>) -> GraphView {
    GraphView { decisions: kept_decisions(parsed), forces: kept_forces(parsed) }
}

/// Whether a decoder gives back what was written for a force.
pub open spec fn decodes_force<F: Fn(&str) -> Result<RawRecord, String>>(
    decode: F,
    f: ForceView,
) -> bool {
    decodes(decode, joined_texts(force_lines(f), "\n"@), force_fields(f))
}

/// Whether a decoder gives back what was written for a decision without anchors.
pub open spec fn decodes_decision<F: Fn(&str) -> Result<RawRecord, String>>(
    decode: F,
    d: DecisionView,
) -> bool {
    decodes(decode, joined_texts(decision_lines(d, ""@), "\n"@), decision_fields(d))
}

/// A force in its file.
pub open spec fn filed_force(dir: Seq<char>, f: ForceView) -> ForceView {
    ForceView { path: record_path(dir, f.id), ..f }
}

/// A decision in its file.
pub open spec fn filed_decision(dir: Seq<char>, d: DecisionView) -> DecisionView {
    DecisionView { path: record_path(dir, d.id), ..d }
}

proof fn lemma_id_not_empty(g: GraphView, more: Seq<Seq<char>>, prefix: Seq<char>, title: Seq<char>)
    ensures
        free_id(g, more, base_id(prefix, title)).len() > 0,
{
    reveal_strlit("-");
}

/// An id is known exactly when a record is found under it.
proof fn lemma_known_is_found(parsed: Seq<ParsedView>, id: Seq<char>)
    ensures
        known_ids(parsed).contains(id) <==> graph_of(parsed).lookup(id) is Some,
{
    let g = graph_of(parsed);
    let a = decision_ids(g.decisions);
    let b = force_ids(g.forces);
    law_linked_ids(parsed);
    law_lookup(g, id);
    if a.contains(id) {
        let i = choose|i: int| 0 <= i < a.len() && a[i] == id;
        assert(g.records()[i].id() == id);
    }
    if b.contains(id) {
        let i = choose|i: int| 0 <= i < b.len() && b[i] == id;
        assert(g.records()[g.decisions.len() + i].id() == id);
    }
    if g.lookup(id) is Some {
        let r = g.lookup(id)->0;
        let k = choose|k: int| 0 <= k < g.records().len() && g.records()[k] == r;
        if k < g.decisions.len() {
            assert(a[k] == id);
        } else {
            assert(b[k - g.decisions.len()] == id);
        }
    }
}

/// A record that is kept is found under its id.
proof fn lemma_kept_is_found(parsed: Seq<ParsedView>)
    ensures
        forall|d: DecisionView| #[trigger]
            kept_decisions(parsed).contains(d) ==> graph_of(parsed).lookup(d.id) == Some(
                RecordView::Decision(d),
            ),
        forall|f: ForceView| #[trigger]
            kept_forces(parsed).contains(f) ==> graph_of(parsed).lookup(f.id) == Some(
                RecordView::Force(f),
            ),
{
    let g = graph_of(parsed);
    law_linked_ids(parsed);
    lemma_distinct_ids(g);
    assert forall|d: DecisionView| #[trigger] kept_decisions(parsed).contains(d) implies g.lookup(
        d.id,
    ) == Some(RecordView::Decision(d)) by {
        let i = choose|i: int| 0 <= i < g.decisions.len() && g.decisions[i] == d;
        assert(g.records()[i] == RecordView::Decision(d));
        law_lookup_finds(g, i);
    }
    assert forall|f: ForceView| #[trigger] kept_forces(parsed).contains(f) implies g.lookup(f.id)
        == Some(RecordView::Force(f)) by {
        let i = choose|i: int| 0 <= i < g.forces.len() && g.forces[i] == f;
        assert(g.records()[g.decisions.len() + i] == RecordView::Force(f));
        law_lookup_finds(g, g.decisions.len() + i);
    }
}

/// What the new files of a commit are read as.
pub open spec fn read_as_committed<F: Fn(&str) -> Result<RawRecord, String>>(
    decode: F,
    dir: Seq<char>,
    made: Seq<ForceView>,
    d: DecisionView,
    more: Seq<ParsedView>,
) -> bool {
    &&& more.len() == made.len() + 1
    &&& forall|i: int|
        0 <= i < made.len() ==> reads(
            decode,
            record_path(dir, made[i].id),
            file_text(force_lines(made[i]), made[i].body),
            #[trigger] more[i],
        )
    &&& reads(
        decode,
        record_path(dir, d.id),
        file_text(decision_lines(d, ""@), d.body),
        more[made.len() as int],
    )
}

proof fn lemma_committed_read<F: Fn(&str) -> Result<RawRecord, String>>(
    decode: F,
    g: GraphView,
    dir: Seq<char>,
    reuse: Double,
    input: ProposeInputView,
    hits: Seq<Seq<HitView>>,
    date: Seq<char>,
    today: Seq<char>,
    more: Seq<ParsedView>,
)
    requires
        iso_day(today) is Some,
        iso_day(date) is Some,
        ({
            let s = settled(g, input.forces, hits, reuse, today, input.forces.len() as int);
            let d = committed_decision(g, input, s, date);
            &&& decodes_decision(decode, d)
            &&& forall|i: int|
                0 <= i < s.made.len() ==> decodes_force(decode, #[trigger] s.made[i])
            &&& read_as_committed(decode, dir, s.made, d, more)
        }),
    ensures
        ({
            let s = settled(g, input.forces, hits, reuse, today, input.forces.len() as int);
            let d = committed_decision(g, input, s, date);
            &&& more[s.made.len() as int] == ParsedView::Decision(filed_decision(dir, d))
            &&& forall|i: int|
                0 <= i < s.made.len() ==> #[trigger] more[i] == ParsedView::Force(
                    filed_force(dir, s.made[i]),
                )
        }),
{
    let n = input.forces.len() as int;
    let s = settled(g, input.forces, hits, reuse, today, n);
    let d = committed_decision(g, input, s, date);
    lemma_settled(g, input.forces, hits, reuse, today, n);
    let e = filed_decision(dir, d);
    lemma_id_not_empty(g, s.created, "d"@, input.title);
    reveal_strlit("");
    assert(decision_lines(e, ""@) == decision_lines(d, ""@));
    assert(decision_fields(e) == decision_fields(d));
    law_decision_round_trip(decode, e, ""@, more[s.made.len() as int]);
    assert forall|i: int| 0 <= i < s.made.len() implies #[trigger] more[i] == ParsedView::Force(
        filed_force(dir, s.made[i]),
    ) by {
        let f = s.made[i];
        let h = filed_force(dir, f);
        lemma_made_ids(g, input.forces, hits, reuse, today, n);
        assert(force_lines(h) == force_lines(f));
        assert(force_fields(h) == force_fields(f));
        assert(decodes_force(decode, f));
        law_force_round_trip(decode, h, more[i]);
    }
}

proof fn lemma_made_ids(
    g: GraphView,
    forces: Seq<ForceInputView>,
    hits: Seq<Seq<HitView>>,
    reuse: Double,
    today: Seq<char>,
    n: int,
)
    requires
        0 <= n <= forces.len(),
    ensures
        forall|i: int|
            0 <= i < settled(g, forces, hits, reuse, today, n).made.len() ==> (
            #[trigger] settled(g, forces, hits, reuse, today, n).made[i]).id.len() > 0,
    decreases n,
{
    if n > 0 {
        lemma_made_ids(g, forces, hits, reuse, today, n - 1);
        let s = settled(g, forces, hits, reuse, today, n - 1);
        let t = settled(g, forces, hits, reuse, today, n);
        if let ForceInputView::New { title, .. } = forces[n - 1] {
            lemma_id_not_empty(g, s.created, "f"@, title);
        }
        assert forall|i: int| 0 <= i < t.made.len() implies (#[trigger] t.made[i]).id.len()
            > 0 by {
            if i < s.made.len() {
                assert(t.made[i] == s.made[i]);
            }
        }
    }
}

/// A commit is read back: in the corpus that is read with the new files, the
/// decision and each new force are found under their ids as they were
/// committed, and every record that was found before is found as it was. This
/// is so where the decoder gives back the fields that were written.
pub proof fn law_commits_are_read_back<F: Fn(&str) -> Result<RawRecord, String>>(
    decode: F,
    parsed: Seq<ParsedView>,
    dir: Seq<char>,
    reuse: Double,
    input: ProposeInputView,
    hits: Seq<Seq<HitView>>,
    date: Seq<char>,
    today: Seq<char>,
    more: Seq<ParsedView>,
)
    requires
        iso_day(today) is Some,
        commit_of(graph_of(parsed), dir, reuse, input, hits, date, today) is Ok,
        ({
            let files = commit_of(
                graph_of(parsed),
                dir,
                reuse,
                input,
                hits,
                date,
                today,
            )->Ok_0.files;
            &&& more.len() == files.len()
            &&& forall|i: int|
                0 <= i < files.len() ==> reads(
                    decode,
                    files[i].path,
                    files[i].text,
                    #[trigger] more[i],
                )
        }),
        ({
            let g = graph_of(parsed);
            let s = settled(g, input.forces, hits, reuse, today, input.forces.len() as int);
            &&& decodes_decision(decode, committed_decision(g, input, s, date))
            &&& forall|i: int|
                0 <= i < s.made.len() ==> decodes_force(decode, #[trigger] s.made[i])
        }),
    ensures
        ({
            let g = graph_of(parsed);
            let after = graph_of(parsed + more);
            let s = settled(g, input.forces, hits, reuse, today, input.forces.len() as int);
            let d = committed_decision(g, input, s, date);
            let receipt = commit_of(g, dir, reuse, input, hits, date, today)->Ok_0.receipt;
            &&& after.lookup(receipt.decision_id) == Some(
                RecordView::Decision(filed_decision(dir, d)),
            )
            &&& forall|i: int|
                0 <= i < receipt.created_force_ids.len() ==> after.lookup(
                    #[trigger] receipt.created_force_ids[i],
                ) == Some(RecordView::Force(filed_force(dir, s.made[i])))
            &&& forall|id: Seq<char>| #[trigger]
                g.lookup(id) is Some ==> after.lookup(id) == g.lookup(id)
        }),
{
    let g = graph_of(parsed);
    let all = parsed + more;
    let after = graph_of(all);
    let n = input.forces.len() as int;
    let s = settled(g, input.forces, hits, reuse, today, n);
    let d = committed_decision(g, input, s, date);
    let files = commit_of(g, dir, reuse, input, hits, date, today)->Ok_0.files;
    lemma_settled(g, input.forces, hits, reuse, today, n);
    law_new_ids_are_free(g, s.created, base_id("d"@, input.title));
    let ids = s.created.push(d.id);
    lemma_push_contains(s.created, d.id);
    assert(read_as_committed(decode, dir, s.made, d, more)) by {
        assert forall|i: int| 0 <= i < s.made.len() implies reads(
            decode,
            record_path(dir, s.made[i].id),
            file_text(force_lines(s.made[i]), s.made[i].body),
            #[trigger] more[i],
        ) by {
            assert(files[i] == force_file(dir, s.made[i]));
        }
    }
    lemma_committed_read(decode, g, dir, reuse, input, hits, date, today, more);
    assert forall|i: int| 0 <= i < more.len() implies id_of(#[trigger] more[i]) == Some(ids[i])
        && g.lookup(ids[i]) is None by {
        if i < s.made.len() {
            assert(s.made[i].id == s.created[i]);
        }
    }
    assert forall|q: ParsedView| #[trigger]
        more.contains(q) && id_of(q) is Some implies !known_ids(parsed).contains(
        id_of(q)->0,
    ) by {
        let j = choose|j: int| 0 <= j < more.len() && more[j] == q;
        lemma_known_is_found(parsed, id_of(q)->0);
    }
    lemma_kept_is_found(all);
    assert forall|i: int| 0 <= i < more.len() implies after.lookup(#[trigger] ids[i]) == Some(
        if i < s.made.len() {
            RecordView::Force(filed_force(dir, s.made[i]))
        } else {
            RecordView::Decision(filed_decision(dir, d))
        },
    ) by {
        let p = more[i];
        assert(all[parsed.len() + i] == p);
        assert forall|q: ParsedView| #[trigger]
            all.contains(q) && id_of(q) == id_of(p) implies q == p by {
            let j = choose|j: int| 0 <= j < all.len() && all[j] == q;
            if j < parsed.len() {
                assert(parsed.contains(q)) by {
                    assert(parsed[j] == q);
                }
                lemma_read_is_known(parsed, q);
                lemma_known_is_found(parsed, ids[i]);
            } else {
                let m = j - parsed.len();
                assert(more[m] == q);
                assert(ids[m] == ids[i]);
            }
        }
        law_single_records_are_kept(all, p);
    }
    assert(ids[s.made.len() as int] == d.id);
    assert forall|i: int| 0 <= i < s.created.len() implies after.lookup(#[trigger] s.created[i])
        == Some(RecordView::Force(filed_force(dir, s.made[i]))) by {
        assert(ids[i] == s.created[i]);
    }
    law_added_files_leave_the_rest(parsed, more);
    assert forall|id: Seq<char>| #[trigger] g.lookup(id) is Some implies after.lookup(id)
        == g.lookup(id) by {
        law_lookup(g, id);
        let r = g.lookup(id)->0;
        let k = choose|k: int| 0 <= k < g.records().len() && g.records()[k] == r;
        match r {
            RecordView::Decision(x) => {
                assert(g.decisions[k] == x);
                assert(kept_decisions(parsed).contains(x));
                assert(kept_decisions(all).contains(x));
            },
            RecordView::Force(x) => {
                assert(g.forces[k - g.decisions.len()] == x);
                assert(kept_forces(parsed).contains(x));
                assert(kept_forces(all).contains(x));
            },
        }
    }
}

/// A status that is set is read back: in the corpus that is read with the
/// changed file, the force has one more entry in its log, nothing else is
/// changed, and if the force fell, every decision that rests on it is stale.
/// This is so where the decoder gives back the fields that were written.
pub proof fn law_statuses_are_read_back<F: Fn(&str) -> Result<RawRecord, String>>(
    decode: F,
    parsed: Seq<ParsedView>,
    j: int,
    f: ForceView,
    word: Seq<char>,
    anchors: Seq<char>,
    today: Seq<char>,
    q: ParsedView,
)
    requires
        0 <= j < parsed.len(),
        parsed[j] == ParsedView::Force(f),
        well_read(parsed[j]),
        read_once(parsed, j),
        graph_of(parsed).lookup(f.id) == Some(RecordView::Force(f)),
        status_change(graph_of(parsed), f.id, word, anchors, today) is Ok,
        ({
            let file = status_change(graph_of(parsed), f.id, word, anchors, today)->Ok_0;
            reads(decode, file.path, file.text, q)
        }),
        decodes_force(decode, extended(f, force_status(word)->0, today)),
    ensures
        force_status(word) is Some,
        q == ParsedView::Force(extended(f, force_status(word)->0, today)),
        exists|k: int|
            0 <= k < graph_of(parsed).forces.len() && #[trigger] graph_of(parsed).forces[k] == f
                && graph_of(parsed.update(j, q)) == with_status(
                graph_of(parsed),
                k,
                force_status(word)->0,
                today,
            ),
        force_status(word)->0 != ForceStatus::Holds ==> forall|id: Seq<char>| #[trigger]
            rests_on(graph_of(parsed), f.id, id) && graph_of(parsed).lookup(id) is Some && graph_of(
                parsed,
            ).lookup(id)->0 is Decision ==> verdict_on(
                graph_of(parsed.update(j, q)),
                id,
            ) is Stale,
{
    let g = graph_of(parsed);
    law_status_goes_forward(g, f.id, f, word, anchors, today);
    let status = force_status(word)->0;
    let h = extended(f, status, today);
    law_force_round_trip(decode, h, q);
    law_lookup(g, f.id);
    let r = choose|r: int| 0 <= r < g.records().len() && g.records()[r] == RecordView::Force(f);
    assert(g.forces[r - g.decisions.len()] == f);
    let k = lemma_changed_force(parsed, j, f, h);
    assert(graph_of(parsed.update(j, q)) =~= with_status(g, k, status, today));
    if status != ForceStatus::Holds {
        assert forall|id: Seq<char>| #[trigger]
            rests_on(g, f.id, id) && g.lookup(id) is Some && g.lookup(id)->0 is Decision implies
            verdict_on(graph_of(parsed.update(j, q)), id) is Stale by {
            law_setting_a_fall_makes_decisions_stale(g, k, status, today, id);
        }
    }
}

/// A decision that is deprecated is read back: in the corpus that is read with
/// the changed file it is deprecated, nothing else is changed, and it is
/// superseded. This is so where the decoder gives back the fields that were
/// written.
pub proof fn law_deprecations_are_read_back<F: Fn(&str) -> Result<RawRecord, String>>(
    decode: F,
    parsed: Seq<ParsedView>,
    j: int,
    d: DecisionView,
    word: Seq<char>,
    anchors: Seq<char>,
    today: Seq<char>,
    q: ParsedView,
)
    requires
        0 <= j < parsed.len(),
        parsed[j] == ParsedView::Decision(d),
        well_read(parsed[j]),
        read_once(parsed, j),
        iso_day(today) is Some,
        is_one_line(anchors),
        graph_of(parsed).lookup(d.id) == Some(RecordView::Decision(d)),
        status_change(graph_of(parsed), d.id, word, anchors, today) is Ok,
        ({
            let file = status_change(graph_of(parsed), d.id, word, anchors, today)->Ok_0;
            reads(decode, file.path, file.text, q)
        }),
        decodes(
            decode,
            joined_texts(decision_lines(deprecated(d, today), anchors), "\n"@),
            decision_fields(deprecated(d, today)),
        ),
    ensures
        q == ParsedView::Decision(deprecated(d, today)),
        exists|k: int|
            0 <= k < graph_of(parsed).decisions.len() && #[trigger] graph_of(parsed).decisions[k]
                == d && graph_of(parsed.update(j, q)) == (GraphView {
                decisions: graph_of(parsed).decisions.update(k, deprecated(d, today)),
                ..graph_of(parsed)
            }),
        is_superseded(graph_of(parsed.update(j, q)), d.id),
{
    let g = graph_of(parsed);
    let e = deprecated(d, today);
    law_decision_round_trip(decode, e, anchors, q);
    law_lookup(g, d.id);
    let r = choose|r: int| 0 <= r < g.records().len() && g.records()[r] == RecordView::Decision(d);
    assert(r < g.decisions.len());
    assert(g.decisions[r] == d);
    let k = lemma_changed_decision(parsed, j, d, e);
    let after = graph_of(parsed.update(j, q));
    assert(after.decisions[k] == e);
    assert(supersedes(after.decisions[k], d.id));
}

/// Whether a decoder gives back what is written down of any decision without
/// anchors and of any force.
pub open spec fn gives_back<F: Fn(&str) -> Result<RawRecord, String>>(decode: F) -> bool {
    &&& forall|d: DecisionView| d.anchors.len() == 0 ==> #[trigger] decodes_decision(decode, d)
    &&& forall|f: ForceView| #[trigger] decodes_force(decode, f)
}

/// Whether a decoder gives back what is written down of any decision that has
/// the anchors of `d`, where they are written as `anchors`.
pub open spec fn gives_back_with<F: Fn(&str) -> Result<RawRecord, String>>(
    decode: F,
    d: DecisionView,
    anchors: Seq<char>,
) -> bool {
    forall|e: DecisionView|
        e.anchors == d.anchors ==> #[trigger] decodes(
            decode,
            joined_texts(decision_lines(e, anchors), "\n"@),
            decision_fields(e),
        )
}

/// What stands for the force at `i` of a proposal, in the corpus `after` the
/// commit to the corpus `g`, where `cited` is the id that the decision cites in
/// its place. A force that exists is cited by its id, and one that is replaced
/// by the id of its best match. Any other force is new: it has the title and
/// the body that were given, holds since the day of the commit, and rests on
/// nothing.
pub open spec fn stands_for(
    g: GraphView,
    after: GraphView,
    receipt: ReceiptView,
    dir: Seq<char>,
    reuse: Double,
    forces: Seq<ForceInputView>,
    hits: Seq<Seq<HitView>>,
    today: Seq<char>,
    cited: Seq<char>,
    i: int,
) -> bool {
    let own = hits[news_before(forces, i)];
    match forces[i] {
        ForceInputView::Existing { id } => cited == id,
        ForceInputView::New { title, body, .. } => if is_replaced(forces, hits, reuse, i) {
            &&& cited == own[0].id
            &&& receipt.reused.contains(cited)
        } else {
            let f = after.lookup(cited)->0->Force_0;
            &&& receipt.created_force_ids.contains(cited)
            &&& g.lookup(cited) is None
            &&& after.lookup(cited) == Some(RecordView::Force(f))
            &&& f.id == cited
            &&& f.title == title
            &&& f.body == body
            &&& f.status_log.len() == 1
            &&& f.status_log[0].status == ForceStatus::Holds
            &&& f.status_log[0].since == today
            &&& f.depends_on.len() == 0
            &&& f.superseded_by is None
            &&& f.tags.len() == 0
            &&& f.path == joined(dir, cited + ".md"@)
            &&& own.len() > 0 ==> receipt.warnings.contains(
                NearView { force_id: cited, hits: own },
            )
        },
    }
}

/// Whether a warning is on a new force of a proposal that has near matches, and
/// tells of these; the decision cites `cites` for the forces.
pub open spec fn warns_of(
    forces: Seq<ForceInputView>,
    hits: Seq<Seq<HitView>>,
    reuse: Double,
    cites: Seq<Seq<char>>,
    w: NearView,
) -> bool {
    exists|i: int|
        0 <= i < forces.len() && forces[i] is New && !is_replaced(forces, hits, reuse, i)
            && w.force_id == #[trigger] cites[i] && w.hits == hits[news_before(forces, i)]
            && w.hits.len() > 0
}

proof fn lemma_stands_for(
    g: GraphView,
    after: GraphView,
    receipt: ReceiptView,
    dir: Seq<char>,
    reuse: Double,
    forces: Seq<ForceInputView>,
    hits: Seq<Seq<HitView>>,
    today: Seq<char>,
)
    requires
        iso_day(today) is Some,
        ({
            let s = settled(g, forces, hits, reuse, today, forces.len() as int);
            &&& receipt.created_force_ids == s.created
            &&& receipt.reused == s.reused
            &&& receipt.warnings == s.warnings
            &&& forall|i: int|
                0 <= i < s.created.len() ==> after.lookup(#[trigger] s.created[i]) == Some(
                    RecordView::Force(filed_force(dir, s.made[i])),
                )
        }),
    ensures
        ({
            let s = settled(g, forces, hits, reuse, today, forces.len() as int);
            &&& s.cites.len() == forces.len()
            &&& s.created.no_duplicates()
            &&& s.created.len() + s.reused.len() == news_before(forces, forces.len() as int)
            &&& forall|i: int|
                0 <= i < forces.len() ==> stands_for(
                    g,
                    after,
                    receipt,
                    dir,
                    reuse,
                    forces,
                    hits,
                    today,
                    #[trigger] s.cites[i],
                    i,
                )
            &&& forall|m: int|
                0 <= m < s.warnings.len() ==> warns_of(
                    forces,
                    hits,
                    reuse,
                    s.cites,
                    #[trigger] s.warnings[m],
                )
        }),
{
    let n = forces.len() as int;
    let s = settled(g, forces, hits, reuse, today, n);
    lemma_settled(g, forces, hits, reuse, today, n);
    lemma_settled_at(g, forces, hits, reuse, today, n);
    assert forall|i: int| 0 <= i < n implies stands_for(
        g,
        after,
        receipt,
        dir,
        reuse,
        forces,
        hits,
        today,
        #[trigger] s.cites[i],
        i,
    ) by {
        assert(settled_place(s, forces, hits, reuse, today, s.cites[i], i));
        if forces[i] is New && !is_replaced(forces, hits, reuse, i) {
            let k = choose|k: int|
                0 <= k < s.created.len() && #[trigger] s.created[k] == s.cites[i] && s.made[k]
                    == new_force(s.cites[i], forces[i]->title, forces[i]->body, today);
            assert(s.made[k].id == s.created[k]);
            assert(after.lookup(s.created[k]) == Some(
                RecordView::Force(filed_force(dir, s.made[k])),
            ));
        }
    }
    assert forall|m: int| 0 <= m < s.warnings.len() implies warns_of(
        forces,
        hits,
        reuse,
        s.cites,
        #[trigger] s.warnings[m],
    ) by {
        assert(is_warned(s, forces, hits, reuse, s.warnings[m], n));
        let i = choose|i: int|
            0 <= i < n && #[trigger] warned_at(s, forces, hits, reuse, s.warnings[m], i);
        assert(s.warnings[m].force_id == s.cites[i]);
    }
}

/// What is proposed is what is read after the commit. Under the id in the
/// receipt stands an accepted decision with the title, the body, the tags and
/// the references of the input, and the date that was given. It cites one id
/// for each of the forces, in their order, and each warning is on one of them.
/// All that was found before is found as it was.
pub proof fn law_what_is_proposed_is_what_is_read<F: Fn(&str) -> Result<RawRecord, String>>(
    decode: F,
    parsed: Seq<ParsedView>,
    dir: Seq<char>,
    reuse: Double,
    input: ProposeInputView,
    hits: Seq<Seq<HitView>>,
    date: Seq<char>,
    today: Seq<char>,
    more: Seq<ParsedView>,
)
    requires
        iso_day(today) is Some,
        commit_of(graph_of(parsed), dir, reuse, input, hits, date, today) is Ok,
        ({
            let files = commit_of(
                graph_of(parsed),
                dir,
                reuse,
                input,
                hits,
                date,
                today,
            )->Ok_0.files;
            &&& more.len() == files.len()
            &&& forall|i: int|
                0 <= i < files.len() ==> reads(
                    decode,
                    files[i].path,
                    files[i].text,
                    #[trigger] more[i],
                )
        }),
        gives_back(decode),
    ensures
        ({
            let g = graph_of(parsed);
            let after = graph_of(parsed + more);
            let receipt = commit_of(g, dir, reuse, input, hits, date, today)->Ok_0.receipt;
            let d = after.lookup(receipt.decision_id)->0->Decision_0;
            &&& g.lookup(receipt.decision_id) is None
            &&& after.lookup(receipt.decision_id) == Some(RecordView::Decision(d))
            &&& d.id == receipt.decision_id
            &&& d.title == input.title
            &&& d.status == DecisionStatus::Accepted
            &&& d.date == date
            &&& d.supersedes == input.supersedes
            &&& d.relates == input.relates
            &&& d.anchors.len() == 0
            &&& d.tags == input.tags
            &&& d.body == input.body
            &&& d.path == joined(dir, receipt.decision_id + ".md"@)
            &&& d.cites.len() == input.forces.len()
            &&& forall|i: int|
                0 <= i < input.forces.len() ==> stands_for(
                    g,
                    after,
                    receipt,
                    dir,
                    reuse,
                    input.forces,
                    hits,
                    today,
                    #[trigger] d.cites[i],
                    i,
                )
            &&& forall|m: int|
                0 <= m < receipt.warnings.len() ==> warns_of(
                    input.forces,
                    hits,
                    reuse,
                    d.cites,
                    #[trigger] receipt.warnings[m],
                )
            &&& forall|i: int|
                0 <= i < input.forces.len() ==> is_listed(
                    receipt,
                    input.forces,
                    hits,
                    reuse,
                    #[trigger] d.cites[i],
                    i,
                )
            &&& receipt.created_force_ids.no_duplicates()
            &&& receipt.created_force_ids.len() + receipt.reused.len() == news_before(
                input.forces,
                input.forces.len() as int,
            )
            &&& more.len() == receipt.created_force_ids.len() + 1
            &&& forall|id: Seq<char>| #[trigger]
                g.lookup(id) is Some ==> after.lookup(id) == g.lookup(id)
        }),
{
    let g = graph_of(parsed);
    let after = graph_of(parsed + more);
    let n = input.forces.len() as int;
    let s = settled(g, input.forces, hits, reuse, today, n);
    let c = committed_decision(g, input, s, date);
    let receipt = commit_of(g, dir, reuse, input, hits, date, today)->Ok_0.receipt;
    assert(decodes_decision(decode, c));
    assert forall|i: int| 0 <= i < s.made.len() implies decodes_force(
        decode,
        #[trigger] s.made[i],
    ) by {}
    law_commits_are_read_back(decode, parsed, dir, reuse, input, hits, date, today, more);
    assert forall|i: int| 0 <= i < s.created.len() implies after.lookup(#[trigger] s.created[i])
        == Some(RecordView::Force(filed_force(dir, s.made[i]))) by {
        assert(receipt.created_force_ids[i] == s.created[i]);
    }
    lemma_stands_for(g, after, receipt, dir, reuse, input.forces, hits, today);
    lemma_settled_in_order(g, input.forces, hits, reuse, today, n, receipt.decision_id);
    lemma_settled(g, input.forces, hits, reuse, today, n);
    law_new_ids_are_free(g, s.created, base_id("d"@, input.title));
}

/// A commit takes what it supersedes out of the present: of the ids that the
/// input supersedes, none but that of the new decision itself is on the
/// frontier of the corpus that is read after the commit.
pub proof fn law_commits_supersede<F: Fn(&str) -> Result<RawRecord, String>>(
    decode: F,
    parsed: Seq<ParsedView>,
    dir: Seq<char>,
    reuse: Double,
    input: ProposeInputView,
    hits: Seq<Seq<HitView>>,
    date: Seq<char>,
    today: Seq<char>,
    more: Seq<ParsedView>,
    id: Seq<char>,
)
    requires
        iso_day(today) is Some,
        commit_of(graph_of(parsed), dir, reuse, input, hits, date, today) is Ok,
        ({
            let files = commit_of(
                graph_of(parsed),
                dir,
                reuse,
                input,
                hits,
                date,
                today,
            )->Ok_0.files;
            &&& more.len() == files.len()
            &&& forall|i: int|
                0 <= i < files.len() ==> reads(
                    decode,
                    files[i].path,
                    files[i].text,
                    #[trigger] more[i],
                )
        }),
        gives_back(decode),
        input.supersedes.contains(id),
        id != commit_of(
            graph_of(parsed),
            dir,
            reuse,
            input,
            hits,
            date,
            today,
        )->Ok_0.receipt.decision_id,
    ensures
        judged(graph_of(parsed + more)).superseded.contains(id),
        !judged(graph_of(parsed + more)).frontier.contains(id),
{
    law_what_is_proposed_is_what_is_read(
        decode,
        parsed,
        dir,
        reuse,
        input,
        hits,
        date,
        today,
        more,
    );
    let after = graph_of(parsed + more);
    let receipt = commit_of(graph_of(parsed), dir, reuse, input, hits, date, today)->Ok_0.receipt;
    let d = after.lookup(receipt.decision_id)->0->Decision_0;
    law_lookup(after, receipt.decision_id);
    let k = choose|k: int|
        0 <= k < after.records().len() && after.records()[k] == RecordView::Decision(d);
    assert(k < after.decisions.len());
    assert(after.decisions[k] == d);
    assert(after.decisions[k].id != id && after.decisions[k].supersedes.contains(id));
    law_superseded_are_deprecated_or_named(after, id);
}

/// Nothing else is lost where a decision is deprecated. In the corpus that is
/// read with the changed file the decision has all of its content but the
/// status and the date, every other record is as it was, and what was
/// superseded is superseded still.
pub proof fn law_deprecations_keep_the_rest<F: Fn(&str) -> Result<RawRecord, String>>(
    decode: F,
    parsed: Seq<ParsedView>,
    j: int,
    d: DecisionView,
    word: Seq<char>,
    anchors: Seq<char>,
    today: Seq<char>,
    q: ParsedView,
    id: Seq<char>,
)
    requires
        0 <= j < parsed.len(),
        parsed[j] == ParsedView::Decision(d),
        well_read(parsed[j]),
        read_once(parsed, j),
        iso_day(today) is Some,
        is_one_line(anchors),
        graph_of(parsed).lookup(d.id) == Some(RecordView::Decision(d)),
        status_change(graph_of(parsed), d.id, word, anchors, today) is Ok,
        ({
            let file = status_change(graph_of(parsed), d.id, word, anchors, today)->Ok_0;
            reads(decode, file.path, file.text, q)
        }),
        gives_back_with(decode, d, anchors),
    ensures
        ({
            let g = graph_of(parsed);
            let after = graph_of(parsed.update(j, q));
            let e = after.lookup(d.id)->0->Decision_0;
            &&& after.lookup(d.id) == Some(RecordView::Decision(e))
            &&& e.status == DecisionStatus::Deprecated
            &&& e.date == today
            &&& e.id == d.id
            &&& e.title == d.title
            &&& e.cites == d.cites
            &&& e.supersedes == d.supersedes
            &&& e.relates == d.relates
            &&& e.anchors == d.anchors
            &&& e.tags == d.tags
            &&& e.body == d.body
            &&& e.path == d.path
            &&& id != d.id ==> after.lookup(id) == g.lookup(id)
            &&& judged(g).superseded.contains(id) ==> judged(after).superseded.contains(id)
            &&& judged(after).superseded.contains(id) ==> judged(g).superseded.contains(id) || id
                == d.id
            &&& judged(after).superseded.contains(d.id)
            &&& !judged(after).frontier.contains(d.id)
            &&& id != d.id ==> (judged(after).frontier.contains(id) <==> judged(
                g,
            ).frontier.contains(id))
        }),
{
    let g = graph_of(parsed);
    let e = deprecated(d, today);
    law_deprecating_keeps_the_content(d, today);
    law_deprecations_are_read_back(decode, parsed, j, d, word, anchors, today, q);
    let after = graph_of(parsed.update(j, q));
    let k = choose|k: int|
        0 <= k < g.decisions.len() && #[trigger] g.decisions[k] == d && after == (GraphView {
            decisions: g.decisions.update(k, e),
            ..g
        });
    lemma_kept_is_found(parsed.update(j, q));
    assert(after.decisions[k] == e);
    assert(kept_decisions(parsed.update(j, q)).contains(e));
    lemma_same_elsewhere(parsed, parsed.update(j, q), k, id);
    law_superseded_are_deprecated_or_named(g, id);
    law_superseded_are_deprecated_or_named(after, id);
    law_superseded_are_deprecated_or_named(after, d.id);
    assert forall|i: int| 0 <= i < g.decisions.len() implies (#[trigger] g.decisions[i]).id
        == after.decisions[i].id && g.decisions[i].supersedes == after.decisions[i].supersedes && (
    g.decisions[i].status == DecisionStatus::Deprecated ==> after.decisions[i].status
        == DecisionStatus::Deprecated) by {
        if i == k {
            assert(after.decisions[i] == e);
        } else {
            assert(after.decisions[i] == g.decisions[i]);
        }
    }
    assert forall|i: int| 0 <= i < g.decisions.len() implies (#[trigger] after.decisions[i]).id
        == g.decisions[i].id && after.decisions[i].supersedes == g.decisions[i].supersedes && (
    after.decisions[i].id != d.id ==> after.decisions[i].status == g.decisions[i].status) by {
        if i == k {
            assert(after.decisions[i] == e);
        } else {
            assert(after.decisions[i] == g.decisions[i]);
        }
    }
}

/// Where two corpora differ in one decision alone, what is found under other
/// ids is the same.
proof fn lemma_same_elsewhere(a: Seq<ParsedView>, b: Seq<ParsedView>, k: int, id: Seq<char>)
    requires
        0 <= k < graph_of(a).decisions.len(),
        graph_of(b).forces == graph_of(a).forces,
        graph_of(b).decisions.len() == graph_of(a).decisions.len(),
        graph_of(b).decisions[k].id == graph_of(a).decisions[k].id,
        forall|i: int|
            0 <= i < graph_of(a).decisions.len() && i != k ==> #[trigger] graph_of(b).decisions[i]
                == graph_of(a).decisions[i],
    ensures
        id != graph_of(a).decisions[k].id ==> graph_of(b).lookup(id) == graph_of(a).lookup(id),
{
    let g = graph_of(a);
    let h = graph_of(b);
    if id != g.decisions[k].id {
        law_lookup(g, id);
        law_lookup(h, id);
        law_linked_ids(a);
        law_linked_ids(b);
        lemma_distinct_ids(g);
        lemma_distinct_ids(h);
        assert forall|m: int| 0 <= m < g.records().len() && m != k implies h.records()[m]
            == #[trigger] g.records()[m] by {
            if m < g.decisions.len() {
                assert(h.decisions[m] == g.decisions[m]);
            }
        }
        if let Some(r) = g.lookup(id) {
            let m = choose|m: int| 0 <= m < g.records().len() && g.records()[m] == r;
            assert(m != k);
            assert(h.records()[m] == r);
            law_lookup_finds(h, m);
        } else if let Some(r) = h.lookup(id) {
            let m = choose|m: int| 0 <= m < h.records().len() && h.records()[m] == r;
            assert(m != k);
            assert(g.records()[m] == r);
        }
    }
}

/// Where a force alone is changed, what is found under other ids is the same.
proof fn lemma_same_but_one_force(
    g: GraphView,
    all: Seq<ParsedView>,
    k: int,
    h: ForceView,
    id: Seq<char>,
)
    requires
        0 <= k < g.forces.len(),
        graph_of(all) == (GraphView { forces: g.forces.update(k, h), ..g }),
        g.forces[k].id == h.id,
    ensures
        id != h.id ==> graph_of(all).lookup(id) == g.lookup(id),
{
    let after = graph_of(all);
    if id != h.id {
        law_lookup(g, id);
        law_lookup(after, id);
        law_linked_ids(all);
        lemma_distinct_ids(after);
        let at = g.decisions.len() + k;
        assert forall|m: int| 0 <= m < g.records().len() && m != at implies after.records()[m]
            == #[trigger] g.records()[m] by {
            if m >= g.decisions.len() {
                assert(after.forces[m - g.decisions.len()] == g.forces[m - g.decisions.len()]);
            }
        }
        assert(after.records()[at].id() == h.id && g.records()[at].id() == h.id);
        if let Some(r) = g.lookup(id) {
            let m = choose|m: int| 0 <= m < g.records().len() && g.records()[m] == r;
            assert(after.records()[m] == r);
            law_lookup_finds(after, m);
        } else if let Some(r) = after.lookup(id) {
            let m = choose|m: int| 0 <= m < after.records().len() && after.records()[m] == r;
            assert(g.records()[m] == r);
        }
    }
}

/// Corpora with the same decisions have the same present.
proof fn lemma_same_frontier(g: GraphView, h: GraphView)
    requires
        g.decisions == h.decisions,
    ensures
        judged(h).superseded == judged(g).superseded,
        forall|x: Seq<char>| #[trigger]
            judged(h).frontier.contains(x) <==> judged(g).frontier.contains(x),
{
    assert forall|x: Seq<char>| #[trigger] judged(h).superseded.contains(x) == judged(
        g,
    ).superseded.contains(x) by {
        law_superseded_are_deprecated_or_named(g, x);
        law_superseded_are_deprecated_or_named(h, x);
    }
    assert forall|x: Seq<char>| #[trigger] judged(h).frontier.contains(x) == judged(
        g,
    ).frontier.contains(x) by {
        law_superseded_are_deprecated_or_named(g, x);
        law_superseded_are_deprecated_or_named(h, x);
    }
    assert(judged(h).superseded =~= judged(g).superseded);
}

/// Nothing else is lost where the status of a force is set. In the corpus that
/// is read with the changed file the force has all of its content, its log goes
/// on with one entry, every decision and every other force is as it was, and so
/// is the frontier.
pub proof fn law_statuses_keep_the_rest<F: Fn(&str) -> Result<RawRecord, String>>(
    decode: F,
    parsed: Seq<ParsedView>,
    j: int,
    f: ForceView,
    word: Seq<char>,
    anchors: Seq<char>,
    today: Seq<char>,
    q: ParsedView,
    id: Seq<char>,
)
    requires
        0 <= j < parsed.len(),
        parsed[j] == ParsedView::Force(f),
        well_read(parsed[j]),
        read_once(parsed, j),
        graph_of(parsed).lookup(f.id) == Some(RecordView::Force(f)),
        status_change(graph_of(parsed), f.id, word, anchors, today) is Ok,
        ({
            let file = status_change(graph_of(parsed), f.id, word, anchors, today)->Ok_0;
            reads(decode, file.path, file.text, q)
        }),
        gives_back(decode),
    ensures
        ({
            let g = graph_of(parsed);
            let after = graph_of(parsed.update(j, q));
            let h = after.lookup(f.id)->0->Force_0;
            let n = f.status_log.len() as int;
            &&& after.lookup(f.id) == Some(RecordView::Force(h))
            &&& h.id == f.id
            &&& h.title == f.title
            &&& h.depends_on == f.depends_on
            &&& h.superseded_by == f.superseded_by
            &&& h.tags == f.tags
            &&& h.body == f.body
            &&& h.path == f.path
            &&& h.status_log.len() == n + 1
            &&& forall|i: int| 0 <= i < n ==> #[trigger] h.status_log[i] == f.status_log[i]
            &&& h.status_log[n].since == today
            &&& word == (match h.status_log[n].status {
                ForceStatus::Holds => "holds"@,
                ForceStatus::Changed => "changed"@,
                ForceStatus::Retired => "retired"@,
            })
            &&& id != f.id ==> after.lookup(id) == g.lookup(id)
            &&& judged(after).superseded == judged(g).superseded
            &&& forall|x: Seq<char>| #[trigger]
                judged(after).frontier.contains(x) <==> judged(g).frontier.contains(x)
        }),
{
    let g = graph_of(parsed);
    let status = force_status(word)->0;
    let h = extended(f, status, today);
    assert(decodes_force(decode, h));
    law_statuses_are_read_back(decode, parsed, j, f, word, anchors, today, q);
    law_setting_a_status_keeps_the_content(f, status, today);
    let all = parsed.update(j, q);
    let after = graph_of(all);
    let k = choose|k: int|
        0 <= k < g.forces.len() && #[trigger] g.forces[k] == f && after == with_status(
            g,
            k,
            status,
            today,
        );
    lemma_kept_is_found(all);
    assert(after.forces[k] == h);
    assert(kept_forces(all).contains(h));
    lemma_same_but_one_force(g, all, k, h, id);
    lemma_same_frontier(g, after);
}

} // verus!
