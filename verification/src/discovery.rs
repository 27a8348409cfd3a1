//! Discovery: which files under the roots are records.
use vstd::prelude::*;
use crate::chars::{trim, trim_start, trimmed, trimmed_start};
use crate::linker::{Diagnostic, DiagnosticView};
use crate::order::{
    in_order, law_sorted_in_order, law_sorted_rearranges, lemma_sorted_contains, sort, sorted, Ordered,
};
use crate::paths::{
    has_markdown_extension, is_markdown, lemma_path_le_total, lemma_path_le_transitive, path_le,
    path_not_after,
};
use crate::record::{behind, opt_view};
use crate::text::{
    chars_of, lemma_push_contains, lemma_sum_contains, matches_at, same_text, slice, split,
    split_at_char, stands_at, text_of, views,
};

verus! {

/// A file under a root, with its text where it could be read.
pub struct Listed {
    pub path: String,
    pub text: Option<String>,
}

/// What a [`Listed`] stands for.
#[verifier::ext_equal]
pub struct ListedView {
    pub path: Seq<char>,
    pub text: Option<Seq<char>>,
}

impl View for Listed {
    type V = ListedView;

    open spec fn view(&self) -> ListedView {
        ListedView { path: self.path@, text: opt_view(self.text) }
    }
}

/// A root, with the files under it where it exists.
pub struct Root {
    pub path: String,
    pub files: Option<Vec<Listed>>,
}

/// What a [`Root`] stands for.
#[verifier::ext_equal]
pub struct RootView {
    pub path: Seq<char>,
    pub files: Option<Seq<ListedView>>,
}

impl View for Root {
    type V = RootView;

    open spec fn view(&self) -> RootView {
        RootView {
            path: self.path@,
            files: match self.files {
                Some(files) => Some(views(files@)),
                None => None,
            },
        }
    }
}

/// Whether the lines from `i` on declare a record, before any line closes the
/// frontmatter.
pub open spec fn declares_record(lines: Seq<Seq<char>>, i: int) -> bool
    decreases lines.len() - i,
{
    if i < 0 || i >= lines.len() {
        false
    } else {
        let line = trimmed(lines[i]);
        if line == "---"@ {
            false
        } else {
            match behind(line, "type:"@) {
                Some(value) => trimmed(value) == "decision"@ || trimmed(value) == "force"@,
                None => declares_record(lines, i + 1),
            }
        }
    }
}

/// Whether a text has frontmatter that declares a record: it starts, but for
/// white space, with `---`, and its first `type:` line, which no closing `---`
/// precedes, names a kind of record.
pub open spec fn is_record_text(text: Seq<char>) -> bool {
    let t = trimmed_start(text);
    stands_at(t, "---"@, 0) && declares_record(split(t.skip(3), '\n'), 0)
}

/// Whether a text has frontmatter that declares a record.
pub fn has_record_frontmatter(text: &str) -> (r: bool)
    ensures
        r == is_record_text(text@),
{
    let t = trim_start(&chars_of(text));
    let dashes = chars_of("---");
    if !matches_at(&t, &dashes, 0) {
        return false;
    }
    proof {
        reveal_strlit("---");
        reveal_strlit("type:");
        assert("---"@.len() == 3);
        assert("type:"@.len() == 5);
    }
    let rest = slice(&t, 3, t.len());
    assert(rest@ =~= t@.skip(3));
    let lines = split_at_char(&rest, '\n');
    let field = chars_of("type:");
    let ghost ls = views(lines@);
    for i in 0..lines.len()
        invariant
            ls == views(lines@),
            ls == split(trimmed_start(text@).skip(3), '\n'),
            stands_at(trimmed_start(text@), "---"@, 0),
            declares_record(ls, 0) == declares_record(ls, i as int),
            field@ == "type:"@,
            field@.len() == 5,
    {
        assert(ls[i as int] == lines@[i as int]@);
        let line = trim(&lines[i]);
        if same_text(text_of(&line).as_str(), "---") {
            return false;
        }
        if matches_at(&line, &field, 0) {
            let tail = slice(&line, 5, line.len());
            assert(tail@ =~= line@.skip(5));
            let value = text_of(&trim(&tail));
            return same_text(value.as_str(), "decision") || same_text(value.as_str(), "force");
        }
    }
    false
}

/// The files of a list that are records: Markdown files that could be read and
/// whose frontmatter declares a record.
pub open spec fn records_among(files: Seq<ListedView>) -> Seq<Seq<char>>
    decreases files.len(),
{
    if files.len() == 0 {
        Seq::empty()
    } else {
        let before = records_among(files.drop_last());
        let f = files.last();
        if is_markdown(f.path) && f.text is Some && is_record_text(f.text->0) {
            before.push(f.path)
        } else {
            before
        }
    }
}

/// The records under all roots, in the order in which they are met.
pub open spec fn records_under(roots: Seq<RootView>) -> Seq<Seq<char>>
    decreases roots.len(),
{
    if roots.len() == 0 {
        Seq::empty()
    } else {
        let before = records_under(roots.drop_last());
        match roots.last().files {
            Some(files) => before + records_among(files),
            None => before,
        }
    }
}

/// The reports of roots that do not exist.
pub open spec fn missing_roots(roots: Seq<RootView>) -> Seq<DiagnosticView>
    decreases roots.len(),
{
    if roots.len() == 0 {
        Seq::empty()
    } else {
        let before = missing_roots(roots.drop_last());
        match roots.last().files {
            Some(_) => before,
            None => before.push(DiagnosticView::MissingRoot { path: roots.last().path }),
        }
    }
}

/// A path, ordered as paths are.
pub struct FilePath {
    pub text: String,
}

impl View for FilePath {
    type V = Seq<char>;

    open spec fn view(&self) -> Seq<char> {
        self.text@
    }
}

impl Ordered for FilePath {
    open spec fn le(a: Seq<char>, b: Seq<char>) -> bool {
        path_le(a, b)
    }

    proof fn le_total(a: Seq<char>, b: Seq<char>) {
        lemma_path_le_total(a, b);
    }

    proof fn le_transitive(a: Seq<char>, b: Seq<char>, c: Seq<char>) {
        lemma_path_le_transitive(a, b, c);
    }

    fn not_after(&self, other: &Self) -> (r: bool) {
        path_not_after(self.text.as_str(), other.text.as_str())
    }
}

fn add_records(files: &Vec<Listed>, out: &mut Vec<FilePath>)
    ensures
        views(final(out)@) == views(old(out)@) + records_among(views(files@)),
{
    let ghost all = views(files@);
    let ghost first = views(out@);
    assert(first + records_among(all.take(0)) =~= first);
    for i in 0..files.len()
        invariant
            all == views(files@),
            views(out@) == first + records_among(all.take(i as int)),
    {
        let ghost before = views(out@);
        let ghost found = records_among(all.take(i as int));
        let f = &files[i];
        proof {
            assert(all.take(i + 1).drop_last() =~= all.take(i as int));
            assert(all.take(i + 1).last() == f@);
        }
        if has_markdown_extension(f.path.as_str()) {
            if let Some(text) = &f.text {
                if has_record_frontmatter(text.as_str()) {
                    out.push(FilePath { text: f.path.clone() });
                    assert(views(out@) =~= before.push(f@.path));
                    assert(first + found.push(f@.path) =~= before.push(f@.path));
                }
            }
        }
    }
    assert(all.take(all.len() as int) =~= all);
}

/// Finds the records under the roots, in path order. A root that does not
/// exist is reported; whatever is not a record is passed over.
pub fn discover(roots: &Vec<Root>) -> (r: (Vec<String>, Vec<Diagnostic>))
    ensures
        views(r.0@) == sorted::<FilePath>(records_under(views(roots@))),
        views(r.1@) == missing_roots(views(roots@)),
{
    let ghost all = views(roots@);
    let mut found: Vec<FilePath> = Vec::new();
    let mut missing: Vec<Diagnostic> = Vec::new();
    assert(views(found@) =~= records_under(all.take(0)));
    assert(views(missing@) =~= missing_roots(all.take(0)));
    for i in 0..roots.len()
        invariant
            all == views(roots@),
            views(found@) == records_under(all.take(i as int)),
            views(missing@) == missing_roots(all.take(i as int)),
    {
        let ghost before = views(missing@);
        let root = &roots[i];
        proof {
            assert(all.take(i + 1).drop_last() =~= all.take(i as int));
            assert(all.take(i + 1).last() == root@);
        }
        match &root.files {
            Some(files) => {
                add_records(files, &mut found);
            },
            None => {
                let d = Diagnostic::MissingRoot { path: root.path.clone() };
                missing.push(d);
                assert(views(missing@) =~= before.push(d@));
            },
        }
    }
    assert(all.take(all.len() as int) =~= all);
    let ordered = sort(found);
    let ghost os = views(ordered@);
    let mut paths: Vec<String> = Vec::new();
    for p in it: ordered.into_iter()
        invariant
            os == views(it.seq()),
            paths.len() == it.index(),
            forall|j: int| 0 <= j < it.index() ==> (#[trigger] paths@[j])@ == os[j],
    {
        assert(os[it.index() as int] == p@);
        paths.push(p.text);
    }
    assert(views(paths@) =~= os);
    (paths, missing)
}

/// Whether a file is a record with the given path.
pub open spec fn is_record_at(f: ListedView, path: Seq<char>) -> bool {
    f.path == path && is_markdown(path) && f.text is Some && is_record_text(f.text->0)
}

/// Whether a root exists and has a record with the given path.
pub open spec fn has_record_at(root: RootView, path: Seq<char>) -> bool {
    root.files is Some && exists|j: int|
        0 <= j < root.files->0.len() && is_record_at(#[trigger] root.files->0[j], path)
}

proof fn lemma_among(files: Seq<ListedView>, path: Seq<char>)
    ensures
        records_among(files).contains(path) <==> exists|j: int|
            0 <= j < files.len() && is_record_at(#[trigger] files[j], path),
    decreases files.len(),
{
    if files.len() > 0 {
        let t = files.drop_last();
        lemma_among(t, path);
        lemma_push_contains(records_among(t), files.last().path);
        if records_among(t).contains(path) {
            let j = choose|j: int| 0 <= j < t.len() && is_record_at(#[trigger] t[j], path);
            assert(is_record_at(files[j], path));
        }
        if exists|j: int| 0 <= j < files.len() && is_record_at(#[trigger] files[j], path) {
            let j = choose|j: int| 0 <= j < files.len() && is_record_at(#[trigger] files[j], path);
            if j < t.len() {
                assert(is_record_at(t[j], path));
            }
        }
    }
}

proof fn lemma_under(roots: Seq<RootView>, path: Seq<char>)
    ensures
        records_under(roots).contains(path) <==> exists|i: int|
            0 <= i < roots.len() && has_record_at(#[trigger] roots[i], path),
    decreases roots.len(),
{
    if roots.len() > 0 {
        let t = roots.drop_last();
        let last = roots.last();
        lemma_under(t, path);
        if let Some(files) = last.files {
            lemma_among(files, path);
            lemma_sum_contains(records_under(t), records_among(files));
        }
        if records_under(t).contains(path) {
            let i = choose|i: int| 0 <= i < t.len() && has_record_at(#[trigger] t[i], path);
            assert(has_record_at(roots[i], path));
        }
        if exists|i: int| 0 <= i < roots.len() && has_record_at(#[trigger] roots[i], path) {
            let i = choose|i: int| 0 <= i < roots.len() && has_record_at(#[trigger] roots[i], path);
            if i < t.len() {
                assert(has_record_at(t[i], path));
            }
        }
    }
}

/// What is discovered are the records under the roots that exist, and nothing
/// else; and it is in path order.
pub proof fn law_discovered_are_the_records(roots: Seq<RootView>, path: Seq<char>)
    ensures
        sorted::<FilePath>(records_under(roots)).contains(path) <==> exists|i: int|
            0 <= i < roots.len() && has_record_at(#[trigger] roots[i], path),
        in_order::<FilePath>(sorted::<FilePath>(records_under(roots))),
{
    lemma_under(roots, path);
    lemma_sorted_contains::<FilePath>(records_under(roots), path);
    law_sorted_in_order::<FilePath>(records_under(roots));
}

/// Whether a line of frontmatter closes it.
pub open spec fn closes(line: Seq<char>) -> bool {
    trimmed(line) == "---"@
}

/// What a line of frontmatter gives for the type, if it is such a line.
pub open spec fn type_on(line: Seq<char>) -> Option<Seq<char>> {
    if stands_at(trimmed(line), "type:"@, 0) {
        Some(trimmed(trimmed(line).skip(5)))
    } else {
        None
    }
}

/// Whether the line at `i` is the first that gives a type, no earlier line
/// closes the frontmatter, and the type is that of a record.
pub open spec fn declares_at(lines: Seq<Seq<char>>, i: int) -> bool {
    &&& 0 <= i < lines.len()
    &&& !closes(lines[i])
    &&& type_on(lines[i]) == Some("decision"@) || type_on(lines[i]) == Some("force"@)
    &&& forall|j: int|
        0 <= j < i ==> !closes(#[trigger] lines[j]) && type_on(lines[j]) is None
}

proof fn lemma_declares(lines: Seq<Seq<char>>, from: int)
    requires
        0 <= from <= lines.len(),
        forall|j: int| 0 <= j < from ==> !closes(#[trigger] lines[j]) && type_on(lines[j]) is None,
    ensures
        declares_record(lines, from) <==> exists|i: int| from <= i && #[trigger] declares_at(lines, i),
    decreases lines.len() - from,
{
    reveal_strlit("type:");
    if from < lines.len() {
        if closes(lines[from]) {
            assert forall|i: int| from <= i implies !#[trigger] declares_at(lines, i) by {
                if declares_at(lines, i) && i > from {
                    assert(!closes(lines[from]));
                }
            }
        } else if type_on(lines[from]) is Some {
            assert(declares_record(lines, from) <==> declares_at(lines, from));
            assert forall|i: int| from < i implies !#[trigger] declares_at(lines, i) by {
                if declares_at(lines, i) {
                    assert(type_on(lines[from]) is None);
                }
            }
        } else {
            lemma_declares(lines, from + 1);
            assert(!declares_at(lines, from));
        }
    }
}

/// A text is a record exactly where it starts with three hyphens, but for white
/// space, and the first of the lines behind them that gives a type gives that of
/// a record, before any line closes the frontmatter.
pub proof fn law_records_declare_their_type(text: Seq<char>)
    ensures
        is_record_text(text) <==> stands_at(trimmed_start(text), "---"@, 0) && exists|i: int|
            0 <= i && #[trigger] declares_at(split(trimmed_start(text).skip(3), '\n'), i),
{
    lemma_declares(split(trimmed_start(text).skip(3), '\n'), 0);
}

/// Every root that does not exist is told of, in its order, and no other.
pub proof fn law_missing_roots_are_told(roots: Seq<RootView>)
    ensures
        forall|d: DiagnosticView| #[trigger]
            missing_roots(roots).contains(d) <==> exists|i: int|
                0 <= i < roots.len() && (#[trigger] roots[i]).files is None && d == (
                DiagnosticView::MissingRoot { path: roots[i].path }),
        missing_roots(roots).len() <= roots.len(),
        (forall|i: int| 0 <= i < roots.len() ==> (#[trigger] roots[i]).files is None)
            ==> missing_roots(roots).len() == roots.len() && forall|i: int|
            0 <= i < roots.len() ==> missing_roots(roots)[i] == (DiagnosticView::MissingRoot {
                path: (#[trigger] roots[i]).path,
            }),
    decreases roots.len(),
{
    if roots.len() > 0 {
        let t = roots.drop_last();
        let n = t.len() as int;
        law_missing_roots_are_told(t);
        let a = missing_roots(t);
        let last = DiagnosticView::MissingRoot { path: roots[n].path };
        lemma_push_contains(a, last);
        assert forall|d: DiagnosticView| #[trigger]
            missing_roots(roots).contains(d) <==> exists|i: int|
            0 <= i < roots.len() && (#[trigger] roots[i]).files is None && d == (
            DiagnosticView::MissingRoot { path: roots[i].path }) by {
            if a.contains(d) {
                let i = choose|i: int|
                    0 <= i < t.len() && (#[trigger] t[i]).files is None && d == (
                    DiagnosticView::MissingRoot { path: t[i].path });
                assert(roots[i].files is None);
            }
            if exists|i: int|
                0 <= i < roots.len() && (#[trigger] roots[i]).files is None && d == (
                DiagnosticView::MissingRoot { path: roots[i].path }) {
                let i = choose|i: int|
                    0 <= i < roots.len() && (#[trigger] roots[i]).files is None && d == (
                    DiagnosticView::MissingRoot { path: roots[i].path });
                if i < n {
                    assert(t[i].files is None);
                }
            }
        }
        if forall|i: int| 0 <= i < roots.len() ==> (#[trigger] roots[i]).files is None {
            assert forall|i: int| 0 <= i < t.len() implies (#[trigger] t[i]).files is None by {
                assert(roots[i].files is None);
            }
            assert(roots[n].files is None);
            assert forall|i: int| 0 <= i < roots.len() implies missing_roots(roots)[i] == (
            DiagnosticView::MissingRoot { path: (#[trigger] roots[i]).path }) by {
                if i < n {
                    assert(t[i] == roots[i]);
                }
            }
        }
    } else {
        assert(missing_roots(roots).len() == 0);
    }
}

/// A file is discovered exactly where some root that exists lists it, it is a
/// Markdown file, it could be read, and its text declares a record. What is
/// discovered is in path order.
pub proof fn law_every_record_file_is_discovered(roots: Seq<RootView>, path: Seq<char>)
    ensures
        sorted::<FilePath>(records_under(roots)).contains(path) <==> exists|i: int, j: int|
            0 <= i < roots.len() && (#[trigger] roots[i]).files is Some && 0 <= j
                < roots[i].files->0.len() && (#[trigger] roots[i].files->0[j]).path == path
                && is_markdown(path) && roots[i].files->0[j].text is Some && is_record_text(
                roots[i].files->0[j].text->0,
            ),
        forall|i: int, j: int|
            0 <= i <= j < sorted::<FilePath>(records_under(roots)).len() ==> path_le(
                #[trigger] sorted::<FilePath>(records_under(roots))[i],
                #[trigger] sorted::<FilePath>(records_under(roots))[j],
            ),
{
    law_discovered_are_the_records(roots, path);
    let found = sorted::<FilePath>(records_under(roots));
    assert forall|i: int, j: int| 0 <= i <= j < found.len() implies path_le(
        #[trigger] found[i],
        #[trigger] found[j],
    ) by {
        assert(<FilePath as Ordered>::le(found[i], found[j]));
    }
    if found.contains(path) {
        let i = choose|i: int| 0 <= i < roots.len() && has_record_at(#[trigger] roots[i], path);
        let fs = roots[i].files->0;
        let j = choose|j: int| 0 <= j < fs.len() && is_record_at(#[trigger] fs[j], path);
        assert(roots[i].files->0[j].path == path);
    }
    if exists|i: int, j: int|
        0 <= i < roots.len() && (#[trigger] roots[i]).files is Some && 0 <= j
            < roots[i].files->0.len() && (#[trigger] roots[i].files->0[j]).path == path
            && is_markdown(path) && roots[i].files->0[j].text is Some && is_record_text(
            roots[i].files->0[j].text->0,
        ) {
        let (i, j) = choose|i: int, j: int|
            0 <= i < roots.len() && (#[trigger] roots[i]).files is Some && 0 <= j
                < roots[i].files->0.len() && (#[trigger] roots[i].files->0[j]).path == path
                && is_markdown(path) && roots[i].files->0[j].text is Some && is_record_text(
                roots[i].files->0[j].text->0,
            );
        assert(is_record_at(roots[i].files->0[j], path));
        assert(has_record_at(roots[i], path));
    }
}

/// How many of the files of a list are records with the given path.
pub open spec fn times_listed(files: Seq<ListedView>, path: Seq<char>) -> nat
    decreases files.len(),
{
    if files.len() == 0 {
        0
    } else {
        times_listed(files.drop_last(), path) + (if is_record_at(files.last(), path) {
            1nat
        } else {
            0
        })
    }
}

/// How often records with the given path are listed under roots that exist.
pub open spec fn times_under(roots: Seq<RootView>, path: Seq<char>) -> nat
    decreases roots.len(),
{
    if roots.len() == 0 {
        0
    } else {
        times_under(roots.drop_last(), path) + (if roots.last().files is Some {
            times_listed(roots.last().files->0, path)
        } else {
            0
        })
    }
}

proof fn lemma_times_listed(files: Seq<ListedView>, path: Seq<char>)
    ensures
        records_among(files).to_multiset().count(path) == times_listed(files, path),
    decreases files.len(),
{
    broadcast use vstd::seq_lib::group_to_multiset_ensures;

    if files.len() > 0 {
        lemma_times_listed(files.drop_last(), path);
    } else {
        assert(records_among(files).to_multiset().count(path) == 0);
    }
}

proof fn lemma_times_under(roots: Seq<RootView>, path: Seq<char>)
    ensures
        records_under(roots).to_multiset().count(path) == times_under(roots, path),
    decreases roots.len(),
{
    broadcast use vstd::seq_lib::group_to_multiset_ensures;

    if roots.len() > 0 {
        let t = roots.drop_last();
        lemma_times_under(t, path);
        if let Some(files) = roots.last().files {
            lemma_times_listed(files, path);
            vstd::seq_lib::lemma_multiset_commutative(records_under(t), records_among(files));
        }
    } else {
        assert(records_under(roots).to_multiset().count(path) == 0);
    }
}

/// A record file is discovered as often as it is listed.
pub proof fn law_record_files_are_discovered_as_often_as_listed(
    roots: Seq<RootView>,
    path: Seq<char>,
)
    ensures
        sorted::<FilePath>(records_under(roots)).to_multiset().count(path) == times_under(
            roots,
            path,
        ),
{
    law_sorted_rearranges::<FilePath>(records_under(roots));
    lemma_times_under(roots, path);
}

} // verus!
