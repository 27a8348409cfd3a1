//! The record layer: decisions and forces, and what makes a file one of them.
use vstd::prelude::*;
use crate::text::{
    chars_of, copy_texts, find, found_from, join2, join3, lemma_found_first, lemma_found_in_more,
    matches_at,
    same_text, slice, stands_at, text_of, views,
};

verus! {

/// `serde_yaml::Value`, any YAML value. The library carries such values and
/// never looks inside.
#[verifier::external_type_specification]
#[verifier::external_body]
pub struct ExYamlValue(serde_yaml::Value);

/// `serde_yaml::Value::clone` gives the same value.
pub assume_specification[ <serde_yaml::Value as Clone>::clone ](v: &serde_yaml::Value) -> (r:
    serde_yaml::Value)
    ensures
        r == *v,
;

/// The status of a decision.
#[derive(Debug, Clone, Copy, PartialEq, Eq, Structural)]
pub enum DecisionStatus {
    Proposed,
    Accepted,
    Rejected,
    Deprecated,
}

/// The status of a force.
#[derive(Debug, Clone, Copy, PartialEq, Eq, Structural)]
pub enum ForceStatus {
    Holds,
    Changed,
    Retired,
}

/// One dated entry in a force's status log.
#[derive(Debug, PartialEq)]
pub struct StatusEntry {
    pub status: ForceStatus,
    pub since: String,
}

/// What a [`StatusEntry`] stands for.
#[verifier::ext_equal]
pub struct StatusEntryView {
    pub status: ForceStatus,
    pub since: Seq<char>,
}

impl View for StatusEntry {
    type V = StatusEntryView;

    open spec fn view(&self) -> StatusEntryView {
        StatusEntryView { status: self.status, since: self.since@ }
    }
}

/// A decision record.
#[derive(Debug, PartialEq)]
pub struct Decision {
    pub id: String,
    pub title: String,
    pub status: DecisionStatus,
    pub date: String,
    pub cites: Vec<String>,
    pub supersedes: Vec<String>,
    pub relates: Vec<String>,
    pub anchors: Vec<serde_yaml::Value>,
    pub tags: Vec<String>,
    pub body: String,
    pub path: String,
}

/// What a [`Decision`] stands for.
#[verifier::ext_equal]
pub struct DecisionView {
    pub id: Seq<char>,
    pub title: Seq<char>,
    pub status: DecisionStatus,
    pub date: Seq<char>,
    pub cites: Seq<Seq<char>>,
    pub supersedes: Seq<Seq<char>>,
    pub relates: Seq<Seq<char>>,
    pub anchors: Seq<serde_yaml::Value>,
    pub tags: Seq<Seq<char>>,
    pub body: Seq<char>,
    pub path: Seq<char>,
}

impl View for Decision {
    type V = DecisionView;

    open spec fn view(&self) -> DecisionView {
        DecisionView {
            id: self.id@,
            title: self.title@,
            status: self.status,
            date: self.date@,
            cites: views(self.cites@),
            supersedes: views(self.supersedes@),
            relates: views(self.relates@),
            anchors: self.anchors@,
            tags: views(self.tags@),
            body: self.body@,
            path: self.path@,
        }
    }
}

/// A force record.
#[derive(Debug, PartialEq)]
pub struct Force {
    pub id: String,
    pub title: String,
    pub depends_on: Vec<String>,
    pub status_log: Vec<StatusEntry>,
    pub superseded_by: Option<String>,
    pub tags: Vec<String>,
    pub body: String,
    pub path: String,
}

/// What a [`Force`] stands for.
#[verifier::ext_equal]
pub struct ForceView {
    pub id: Seq<char>,
    pub title: Seq<char>,
    pub depends_on: Seq<Seq<char>>,
    pub status_log: Seq<StatusEntryView>,
    pub superseded_by: Option<Seq<char>>,
    pub tags: Seq<Seq<char>>,
    pub body: Seq<char>,
    pub path: Seq<char>,
}

/// The view of an optional string.
pub open spec fn opt_view(o: Option<String>) -> Option<Seq<char>> {
    match o {
        Some(s) => Some(s@),
        None => None,
    }
}

impl View for Force {
    type V = ForceView;

    open spec fn view(&self) -> ForceView {
        ForceView {
            id: self.id@,
            title: self.title@,
            depends_on: views(self.depends_on@),
            status_log: views(self.status_log@),
            superseded_by: opt_view(self.superseded_by),
            tags: views(self.tags@),
            body: self.body@,
            path: self.path@,
        }
    }
}

impl ForceView {
    /// The status that the last entry of the log gives.
    pub open spec fn current_status(self) -> ForceStatus {
        self.status_log.last().status
    }

    /// Whether the force no longer holds.
    pub open spec fn is_fallen(self) -> bool {
        self.current_status() != ForceStatus::Holds
    }
}

impl Force {
    /// The current status: that of the last entry in the log.
    pub fn current_status(&self) -> (r: ForceStatus)
        requires
            self@.status_log.len() > 0,
        ensures
            r == self@.current_status(),
    {
        self.status_log[self.status_log.len() - 1].status
    }
}

/// A file that is not a record, and why.
#[derive(Debug, PartialEq)]
pub struct ParseError {
    pub path: String,
    pub message: String,
}

/// What a [`ParseError`] stands for.
#[verifier::ext_equal]
pub struct ParseErrorView {
    pub path: Seq<char>,
    pub message: Seq<char>,
}

impl View for ParseError {
    type V = ParseErrorView;

    open spec fn view(&self) -> ParseErrorView {
        ParseErrorView { path: self.path@, message: self.message@ }
    }
}

/// What a file was read as.
#[derive(Debug, PartialEq)]
pub enum Parsed {
    Decision(Decision),
    Force(Force),
    Error(ParseError),
}

/// What a [`Parsed`] stands for.
pub enum ParsedView {
    Decision(DecisionView),
    Force(ForceView),
    Error(ParseErrorView),
}

impl View for Parsed {
    type V = ParsedView;

    open spec fn view(&self) -> ParsedView {
        match self {
            Parsed::Decision(d) => ParsedView::Decision(d@),
            Parsed::Force(f) => ParsedView::Force(f@),
            Parsed::Error(e) => ParsedView::Error(e@),
        }
    }
}

/// The fields of a record's frontmatter, before any of them is checked.
pub struct RawRecord {
    pub id: String,
    pub rec_type: String,
    pub title: String,
    pub status: Option<DecisionStatus>,
    pub date: Option<String>,
    pub cites: Vec<String>,
    pub supersedes: Vec<String>,
    pub relates: Vec<String>,
    pub anchors: Vec<serde_yaml::Value>,
    pub depends_on: Vec<String>,
    pub status_log: Vec<StatusEntry>,
    pub superseded_by: Option<String>,
    pub tags: Vec<String>,
}

/// What a [`RawRecord`] stands for.
#[verifier::ext_equal]
pub struct RawRecordView {
    pub id: Seq<char>,
    pub rec_type: Seq<char>,
    pub title: Seq<char>,
    pub status: Option<DecisionStatus>,
    pub date: Option<Seq<char>>,
    pub cites: Seq<Seq<char>>,
    pub supersedes: Seq<Seq<char>>,
    pub relates: Seq<Seq<char>>,
    pub anchors: Seq<serde_yaml::Value>,
    pub depends_on: Seq<Seq<char>>,
    pub status_log: Seq<StatusEntryView>,
    pub superseded_by: Option<Seq<char>>,
    pub tags: Seq<Seq<char>>,
}

impl View for RawRecord {
    type V = RawRecordView;

    open spec fn view(&self) -> RawRecordView {
        RawRecordView {
            id: self.id@,
            rec_type: self.rec_type@,
            title: self.title@,
            status: self.status,
            date: opt_view(self.date),
            cites: views(self.cites@),
            supersedes: views(self.supersedes@),
            relates: views(self.relates@),
            anchors: self.anchors@,
            depends_on: views(self.depends_on@),
            status_log: views(self.status_log@),
            superseded_by: opt_view(self.superseded_by),
            tags: views(self.tags@),
        }
    }
}

impl Clone for StatusEntry {
    fn clone(&self) -> (r: Self)
        ensures
            r@ == self@,
    {
        StatusEntry { status: self.status, since: self.since.clone() }
    }
}

fn copy_log(log: &Vec<StatusEntry>) -> (r: Vec<StatusEntry>)
    ensures
        views(r@) == views(log@),
{
    let mut out: Vec<StatusEntry> = Vec::new();
    for i in 0..log.len()
        invariant
            out.len() == i,
            forall|j: int| 0 <= j < i ==> (#[trigger] out@[j])@ == log@[j]@,
    {
        out.push(log[i].clone());
    }
    assert(views(out@) =~= views(log@));
    out
}

fn copy_anchors(anchors: &Vec<serde_yaml::Value>) -> (r: Vec<serde_yaml::Value>)
    ensures
        r@ == anchors@,
{
    let mut out: Vec<serde_yaml::Value> = Vec::new();
    for i in 0..anchors.len()
        invariant
            out@ == anchors@.take(i as int),
    {
        out.push(anchors[i].clone());
        assert(out@ =~= anchors@.take(i + 1));
    }
    out
}

/// A copy of an optional string.
pub fn copy_opt(o: &Option<String>) -> (r: Option<String>)
    ensures
        opt_view(r) == opt_view(*o),
{
    match o {
        Some(s) => Some(s.clone()),
        None => None,
    }
}

impl Clone for Decision {
    fn clone(&self) -> (r: Self)
        ensures
            r@ == self@,
    {
        Decision {
            id: self.id.clone(),
            title: self.title.clone(),
            status: self.status,
            date: self.date.clone(),
            cites: copy_texts(&self.cites),
            supersedes: copy_texts(&self.supersedes),
            relates: copy_texts(&self.relates),
            anchors: copy_anchors(&self.anchors),
            tags: copy_texts(&self.tags),
            body: self.body.clone(),
            path: self.path.clone(),
        }
    }
}

impl Clone for Force {
    fn clone(&self) -> (r: Self)
        ensures
            r@ == self@,
    {
        Force {
            id: self.id.clone(),
            title: self.title.clone(),
            depends_on: copy_texts(&self.depends_on),
            status_log: copy_log(&self.status_log),
            superseded_by: copy_opt(&self.superseded_by),
            tags: copy_texts(&self.tags),
            body: self.body.clone(),
            path: self.path.clone(),
        }
    }
}

impl Clone for ParseError {
    fn clone(&self) -> (r: Self)
        ensures
            r@ == self@,
    {
        ParseError { path: self.path.clone(), message: self.message.clone() }
    }
}

impl Clone for Parsed {
    fn clone(&self) -> (r: Self)
        ensures
            r@ == self@,
    {
        match self {
            Parsed::Decision(d) => Parsed::Decision(d.clone()),
            Parsed::Force(f) => Parsed::Force(f.clone()),
            Parsed::Error(e) => Parsed::Error(e.clone()),
        }
    }
}

/// What is left of `s` behind a prefix.
pub open spec fn behind(s: Seq<char>, prefix: Seq<char>) -> Option<Seq<char>> {
    if stands_at(s, prefix, 0) {
        Some(s.skip(prefix.len() as int))
    } else {
        None
    }
}

/// `body` without the line break that it starts with, if it does.
pub open spec fn after_break(body: Seq<char>) -> Seq<char> {
    match behind(body, "\n"@) {
        Some(rest) => rest,
        None => match behind(body, "\r\n"@) {
            Some(rest) => rest,
            None => body,
        },
    }
}

/// Where the frontmatter closes in the text behind the opening delimiter, and
/// how long the closing delimiter is: it is the first line that starts with
/// three hyphens, with the line break before it.
pub open spec fn closing(t: Seq<char>) -> Option<(int, int)> {
    match found_from(t, "\n---"@, 0) {
        Some(p) => if p > 0 && t[p - 1] == '\r' {
            Some((p - 1, 5))
        } else {
            Some((p, 4))
        },
        None => None,
    }
}

/// The text behind the opening delimiter.
pub open spec fn opened(text: Seq<char>) -> Option<Seq<char>> {
    match behind(text, "---\n"@) {
        Some(t) => Some(t),
        None => behind(text, "---\r\n"@),
    }
}

/// The frontmatter and the body of a file.
pub open spec fn frontmatter(text: Seq<char>) -> Option<(Seq<char>, Seq<char>)> {
    match opened(text) {
        Some(t) => match closing(t) {
            Some((p, n)) => Some((t.take(p), after_break(t.skip(p + n)))),
            None => None,
        },
        None => None,
    }
}

/// The frontmatter stays the same whatever stands behind it: nothing that is
/// added to a file with frontmatter changes where that ends.
pub proof fn law_frontmatter_ends_before_the_body(text: Seq<char>, more: Seq<char>)
    requires
        frontmatter(text) is Some,
    ensures
        match (frontmatter(text), frontmatter(text + more)) {
            (Some((yaml, _)), Some((same, _))) => same == yaml,
            _ => false,
        },
{
    reveal_strlit("---\n");
    reveal_strlit("---\r\n");
    reveal_strlit("\n---");
    let all = text + more;
    if stands_at(text, "---\n"@, 0) {
        assert(all.subrange(0, 4) =~= text.subrange(0, 4));
        assert(all.skip(4) =~= text.skip(4) + more);
    } else {
        assert(all.subrange(0, 5) =~= text.subrange(0, 5));
        assert(all.skip(5) =~= text.skip(5) + more);
        if stands_at(all, "---\n"@, 0) {
            assert(all.subrange(0, 4)[3] == '\n');
            assert(all.subrange(0, 5)[3] == '\r');
        }
    }
    let t = opened(text)->0;
    assert(opened(all) == Some(t + more));
    lemma_found_in_more(t, more, "\n---"@, 0);
    let (p, _) = closing(t)->0;
    assert((t + more).take(p) =~= t.take(p));
}

/// The characters behind a prefix.
fn strip(s: &Vec<char>, prefix: &str) -> (r: Option<Vec<char>>)
    ensures
        match r {
            Some(t) => behind(s@, prefix@) == Some(t@),
            None => behind(s@, prefix@) is None,
        },
{
    let p = chars_of(prefix);
    if matches_at(s, &p, 0) {
        let rest = slice(s, p.len(), s.len());
        assert(rest@ =~= s@.skip(p.len() as int));
        Some(rest)
    } else {
        None
    }
}

/// Splits a file into its frontmatter and its body.
pub fn extract_frontmatter(text: &str) -> (r: Option<(String, String)>)
    ensures
        match r {
            Some((yaml, body)) => frontmatter(text@) == Some((yaml@, body@)),
            None => frontmatter(text@) is None,
        },
{
    let chars = chars_of(text);
    let t = match strip(&chars, "---\n") {
        Some(t) => t,
        None => match strip(&chars, "---\r\n") {
            Some(t) => t,
            None => {
                return None;
            },
        },
    };
    proof {
        reveal_strlit("\n---");
        assert("\n---"@.len() == 4);
    }
    let (at, width): (usize, usize) = match find(&t, &chars_of("\n---")) {
        Some(p) => if p > 0 && t[p - 1] == '\r' {
            (p - 1, 5)
        } else {
            (p, 4)
        },
        None => {
            return None;
        },
    };
    assert(at + width <= t.len());
    let yaml = slice(&t, 0, at);
    let rest = slice(&t, at + width, t.len());
    assert(yaml@ =~= t@.take(at as int));
    assert(rest@ =~= t@.skip(at + width));
    let body = match strip(&rest, "\n") {
        Some(b) => b,
        None => match strip(&rest, "\r\n") {
            Some(b) => b,
            None => rest,
        },
    };
    Some((text_of(&yaml), text_of(&body)))
}

/// The day on which `chrono` puts a date written as `%Y-%m-%d`, counted from
/// the start of the common era; nothing where it reads no date.
pub uninterp spec fn iso_day(date: Seq<char>) -> Option<i32>;

/// Calls `chrono::NaiveDate::parse_from_str` with the format `%Y-%m-%d` and
/// gives the date as its day number. Dates compare as their day numbers do.
/// Which texts are read as dates, and as which, is left to the name.
#[verifier::external_body]
pub(crate) fn read_date(date: &str) -> (r: Option<i32>)
    ensures
        r == iso_day(date@),
{
    chrono::NaiveDate::parse_from_str(date, "%Y-%m-%d").ok().map(
        |d| chrono::Datelike::num_days_from_ce(&d),
    )
}

/// The days on which the entries of a log start.
pub open spec fn log_days(log: Seq<StatusEntryView>) -> Seq<Option<i32>> {
    log.map_values(|e: StatusEntryView| iso_day(e.since))
}

/// The name by which messages speak of a force's status.
pub open spec fn status_label(s: ForceStatus) -> Seq<char> {
    match s {
        ForceStatus::Holds => "Holds"@,
        ForceStatus::Changed => "Changed"@,
        ForceStatus::Retired => "Retired"@,
    }
}

/// Whether a force may pass from one status to another: only forward.
pub open spec fn is_legal(prev: ForceStatus, curr: ForceStatus) -> bool {
    ||| prev == ForceStatus::Holds && curr == ForceStatus::Changed
    ||| prev == ForceStatus::Holds && curr == ForceStatus::Retired
    ||| prev == ForceStatus::Changed && curr == ForceStatus::Retired
}

/// The first entry, from `i` on, that is not dated.
pub open spec fn undated_from(days: Seq<Option<i32>>, i: int) -> Option<int>
    decreases days.len() - i,
{
    if i < 0 || i >= days.len() {
        None
    } else if days[i] is None {
        Some(i)
    } else {
        undated_from(days, i + 1)
    }
}

/// Whether the entry at `i` does not start before the one before it.
pub open spec fn follows(days: Seq<Option<i32>>, i: int) -> bool {
    days[i - 1]->0 <= days[i]->0
}

/// Whether the entry before the one at `i` may pass to it.
pub open spec fn passes(log: Seq<StatusEntryView>, i: int) -> bool {
    is_legal(log[i - 1].status, log[i].status)
}

/// The first entry, from `i` on, that starts before the one before it.
pub open spec fn backdated_from(days: Seq<Option<i32>>, i: int) -> Option<int>
    decreases days.len() - i,
{
    if i < 1 || i >= days.len() {
        None
    } else if !follows(days, i) {
        Some(i)
    } else {
        backdated_from(days, i + 1)
    }
}

/// The first entry, from `i` on, that the one before it may not pass to.
pub open spec fn illegal_from(log: Seq<StatusEntryView>, i: int) -> Option<int>
    decreases log.len() - i,
{
    if i < 1 || i >= log.len() {
        None
    } else if !passes(log, i) {
        Some(i)
    } else {
        illegal_from(log, i + 1)
    }
}

/// What is wrong with a status log whose entries start on the given days.
pub open spec fn log_problem(log: Seq<StatusEntryView>, days: Seq<Option<i32>>) -> Option<Seq<char>> {
    if log.len() == 0 {
        Some("status_log must not be empty"@)
    } else if let Some(i) = undated_from(days, 0) {
        Some("invalid date in status_log: "@ + log[i].since)
    } else if let Some(i) = backdated_from(days, 1) {
        Some(
            "status_log entries must be in date order: "@ + log[i].since + " is before "@ + log[i
                - 1].since,
        )
    } else if let Some(i) = illegal_from(log, 1) {
        let passage = status_label(log[i - 1].status) + " -> "@ + status_label(log[i].status);
        if log[i - 1].status == log[i].status {
            Some("consecutive statuses must not be identical: "@ + passage)
        } else {
            Some("illegal status transition: "@ + passage)
        }
    } else {
        None
    }
}

fn label_of(s: ForceStatus) -> (r: &'static str)
    ensures
        r@ == status_label(s),
{
    match s {
        ForceStatus::Holds => "Holds",
        ForceStatus::Changed => "Changed",
        ForceStatus::Retired => "Retired",
    }
}

/// Whether a force may pass from one status to another.
pub fn may_pass(prev: ForceStatus, curr: ForceStatus) -> (r: bool)
    ensures
        r == is_legal(prev, curr),
{
    match (prev, curr) {
        (ForceStatus::Holds, ForceStatus::Changed) => true,
        (ForceStatus::Holds, ForceStatus::Retired) => true,
        (ForceStatus::Changed, ForceStatus::Retired) => true,
        _ => false,
    }
}

/// Checks a status log, given the days on which its entries start: it must
/// not be empty, every entry must be dated, the dates must not go back, and
/// each status must pass forward to the next.
pub fn check_status_log(log: &Vec<StatusEntry>, days: &Vec<Option<i32>>) -> (r: Option<String>)
    requires
        log.len() == days.len(),
    ensures
        opt_view(r) == log_problem(views(log@), days@),
{
    let ghost entries = views(log@);
    if log.len() == 0 {
        return Some("status_log must not be empty".to_string());
    }
    let mut i: usize = 0;
    while i < log.len()
        invariant
            entries == views(log@),
            0 < log.len() == days.len(),
            i <= log.len(),
            undated_from(days@, 0) == undated_from(days@, i as int),
            forall|j: int| 0 <= j < i ==> days@[j] is Some,
        decreases log.len() - i,
    {
        if days[i].is_none() {
            return Some(join2("invalid date in status_log: ", log[i].since.as_str()));
        }
        i = i + 1;
    }
    let mut i: usize = 1;
    while i < log.len()
        invariant
            entries == views(log@),
            0 < log.len() == days.len(),
            1 <= i <= log.len(),
            undated_from(days@, 0) is None,
            forall|j: int| 0 <= j < days.len() ==> days@[j] is Some,
            backdated_from(days@, 1) == backdated_from(days@, i as int),
        decreases log.len() - i,
    {
        if days[i].unwrap() < days[i - 1].unwrap() {
            let head = join3("status_log entries must be in date order: ", log[i].since.as_str(), " is before ");
            return Some(join2(head.as_str(), log[i - 1].since.as_str()));
        }
        i = i + 1;
    }
    let mut i: usize = 1;
    while i < log.len()
        invariant
            entries == views(log@),
            0 < log.len() == days.len(),
            1 <= i <= log.len(),
            undated_from(days@, 0) is None,
            backdated_from(days@, 1) is None,
            illegal_from(entries, 1) == illegal_from(entries, i as int),
        decreases log.len() - i,
    {
        let prev = log[i - 1].status;
        let curr = log[i].status;
        assert(entries[i - 1].status == prev && entries[i as int].status == curr);
        if !may_pass(prev, curr) {
            let passage = join3(label_of(prev), " -> ", label_of(curr));
            if prev == curr {
                return Some(
                    join2("consecutive statuses must not be identical: ", passage.as_str()),
                );
            }
            return Some(join2("illegal status transition: ", passage.as_str()));
        }
        i = i + 1;
    }
    None
}

/// The report of a file that is not a record.
pub open spec fn rejected(path: Seq<char>, message: Seq<char>) -> ParsedView {
    ParsedView::Error(ParseErrorView { path, message })
}

/// The decision that frontmatter and body describe, given the day of its date.
pub open spec fn decision_from(
    path: Seq<char>,
    raw: RawRecordView,
    body: Seq<char>,
    day: Option<i32>,
) -> ParsedView {
    match (raw.status, raw.date) {
        (None, _) => rejected(path, "decision requires a status field"@),
        (Some(_), None) => rejected(path, "decision requires a date field"@),
        (Some(status), Some(date)) => if day is None {
            rejected(path, "invalid date format: "@ + date)
        } else {
            ParsedView::Decision(
                DecisionView {
                    id: raw.id,
                    title: raw.title,
                    status,
                    date,
                    cites: raw.cites,
                    supersedes: raw.supersedes,
                    relates: raw.relates,
                    anchors: raw.anchors,
                    tags: raw.tags,
                    body,
                    path,
                },
            )
        },
    }
}

/// The force that frontmatter and body describe, given the days of its log.
pub open spec fn force_from(
    path: Seq<char>,
    raw: RawRecordView,
    body: Seq<char>,
    days: Seq<Option<i32>>,
) -> ParsedView {
    match log_problem(raw.status_log, days) {
        Some(message) => rejected(path, message),
        None => ParsedView::Force(
            ForceView {
                id: raw.id,
                title: raw.title,
                depends_on: raw.depends_on,
                status_log: raw.status_log,
                superseded_by: raw.superseded_by,
                tags: raw.tags,
                body,
                path,
            },
        ),
    }
}

/// What decoded frontmatter and a body make.
pub open spec fn record_from(
    path: Seq<char>,
    decoded: Result<RawRecordView, Seq<char>>,
    body: Seq<char>,
) -> ParsedView {
    match decoded {
        Err(message) => rejected(path, message),
        Ok(raw) => if raw.id.len() == 0 {
            rejected(path, "id must not be empty"@)
        } else if raw.rec_type == "decision"@ {
            decision_from(
                path,
                raw,
                body,
                match raw.date {
                    Some(date) => iso_day(date),
                    None => None,
                },
            )
        } else if raw.rec_type == "force"@ {
            force_from(path, raw, body, log_days(raw.status_log))
        } else {
            rejected(path, "unknown record type: "@ + raw.rec_type)
        },
    }
}

/// The view of what a decoder made of frontmatter.
pub open spec fn decoded_view(decoded: Result<RawRecord, String>) -> Result<RawRecordView, Seq<char>> {
    match decoded {
        Ok(raw) => Ok(raw@),
        Err(message) => Err(message@),
    }
}

fn err(path: &str, message: String) -> (r: Parsed)
    ensures
        r@ == rejected(path@, message@),
{
    Parsed::Error(ParseError { path: path.to_string(), message })
}

/// Reads a decision, given the day on which its date falls.
pub fn parse_decision(path: &str, raw: RawRecord, body: String, day: Option<i32>) -> (r: Parsed)
    ensures
        r@ == decision_from(path@, raw@, body@, day),
{
    let status = match raw.status {
        Some(s) => s,
        None => {
            return err(path, "decision requires a status field".to_string());
        },
    };
    let date = match raw.date {
        Some(d) => d,
        None => {
            return err(path, "decision requires a date field".to_string());
        },
    };
    if day.is_none() {
        return err(path, join2("invalid date format: ", date.as_str()));
    }
    Parsed::Decision(
        Decision {
            id: raw.id,
            title: raw.title,
            status,
            date,
            cites: raw.cites,
            supersedes: raw.supersedes,
            relates: raw.relates,
            anchors: raw.anchors,
            tags: raw.tags,
            body,
            path: path.to_string(),
        },
    )
}

/// Reads a force, given the days on which the entries of its log start.
pub fn parse_force(path: &str, raw: RawRecord, body: String, days: &Vec<Option<i32>>) -> (r: Parsed)
    requires
        days.len() == raw.status_log.len(),
    ensures
        r@ == force_from(path@, raw@, body@, days@),
{
    match check_status_log(&raw.status_log, days) {
        Some(message) => err(path, message),
        None => Parsed::Force(
            Force {
                id: raw.id,
                title: raw.title,
                depends_on: raw.depends_on,
                status_log: raw.status_log,
                superseded_by: raw.superseded_by,
                tags: raw.tags,
                body,
                path: path.to_string(),
            },
        ),
    }
}

/// Makes a record of decoded frontmatter and a body.
pub fn parse_decoded(path: &str, decoded: Result<RawRecord, String>, body: String) -> (r: Parsed)
    ensures
        r@ == record_from(path@, decoded_view(decoded), body@),
{
    let raw = match decoded {
        Ok(raw) => raw,
        Err(message) => {
            return err(path, message);
        },
    };
    if raw.id.as_str().is_empty() {
        return err(path, "id must not be empty".to_string());
    }
    if same_text(raw.rec_type.as_str(), "decision") {
        let day = match &raw.date {
            Some(date) => read_date(date.as_str()),
            None => None,
        };
        parse_decision(path, raw, body, day)
    } else if same_text(raw.rec_type.as_str(), "force") {
        let mut days: Vec<Option<i32>> = Vec::new();
        for i in 0..raw.status_log.len()
            invariant
                days.len() == i,
                forall|j: int| 0 <= j < i ==> days@[j] == iso_day(raw.status_log@[j].since@),
        {
            days.push(read_date(raw.status_log[i].since.as_str()));
        }
        assert(days@ =~= log_days(raw@.status_log));
        parse_force(path, raw, body, &days)
    } else {
        err(path, join2("unknown record type: ", raw.rec_type.as_str()))
    }
}

/// Whether a file may be read as `p`, with `decode` to turn the text of its
/// frontmatter into fields. What is decoded is exactly the text between the
/// delimiters.
pub open spec fn reads<F: Fn(&str) -> Result<RawRecord, String>>(
    decode: F,
    path: Seq<char>,
    text: Seq<char>,
    p: ParsedView,
) -> bool {
    match frontmatter(text) {
        None => p == rejected(path, "missing frontmatter delimiter"@),
        Some((yaml, body)) => exists|y: &str, decoded: Result<RawRecord, String>| #[trigger]
            call_ensures(decode, (y,), decoded) && y@ == yaml && p == record_from(
                path,
                decoded_view(decoded),
                body,
            ),
    }
}

/// Whatever a file is read as is well read.
pub proof fn law_read_is_well_read<F: Fn(&str) -> Result<RawRecord, String>>(
    decode: F,
    path: Seq<char>,
    text: Seq<char>,
    p: ParsedView,
)
    requires
        reads(decode, path, text, p),
    ensures
        well_read(p),
        path_of(p) == path,
{
    if let Some((yaml, body)) = frontmatter(text) {
        let (y, decoded) = choose|y: &str, decoded: Result<RawRecord, String>| #[trigger]
            call_ensures(decode, (y,), decoded) && y@ == yaml && p == record_from(
                path,
                decoded_view(decoded),
                body,
            );
        law_parsed_is_well_read(path, decoded_view(decoded), body);
    }
}

/// Reads a file as a record. `decode` turns the text of the frontmatter into
/// its fields, or says why it cannot.
pub fn parse<F: Fn(&str) -> Result<RawRecord, String>>(path: &str, text: &str, decode: &F) -> (r:
    Parsed)
    requires
        forall|yaml: &str| call_requires(*decode, (yaml,)),
    ensures
        reads(*decode, path@, text@, r@),
{
    match extract_frontmatter(text) {
        None => err(path, "missing frontmatter delimiter".to_string()),
        Some((yaml, body)) => {
            let y = yaml.as_str();
            let decoded = decode(y);
            assert(call_ensures(*decode, (y,), decoded));
            parse_decoded(path, decoded, body)
        },
    }
}

/// Whether a status log is a force's history: it has entries, each is dated,
/// the dates do not go back, and each status passes forward to the next.
pub open spec fn valid_log(log: Seq<StatusEntryView>) -> bool {
    &&& log.len() > 0
    &&& forall|i: int| 0 <= i < log.len() ==> (#[trigger] log_days(log)[i]) is Some
    &&& forall|i: int| 1 <= i < log.len() ==> #[trigger] follows(log_days(log), i)
    &&& forall|i: int| 1 <= i < log.len() ==> #[trigger] passes(log, i)
}

proof fn lemma_undated(days: Seq<Option<i32>>, i: int)
    requires
        0 <= i <= days.len(),
    ensures
        undated_from(days, i) is None <==> forall|j: int|
            i <= j < days.len() ==> (#[trigger] days[j]) is Some,
    decreases days.len() - i,
{
    if i < days.len() {
        lemma_undated(days, i + 1);
    }
}

proof fn lemma_backdated(days: Seq<Option<i32>>, i: int)
    requires
        1 <= i,
    ensures
        backdated_from(days, i) is None <==> forall|j: int|
            i <= j < days.len() ==> #[trigger] follows(days, j),
    decreases days.len() - i,
{
    if i < days.len() {
        lemma_backdated(days, i + 1);
    }
}

proof fn lemma_illegal(log: Seq<StatusEntryView>, i: int)
    requires
        1 <= i,
    ensures
        illegal_from(log, i) is None <==> forall|j: int|
            i <= j < log.len() ==> #[trigger] passes(log, j),
    decreases log.len() - i,
{
    if i < log.len() {
        lemma_illegal(log, i + 1);
    }
}

/// A status log is accepted exactly when it is a force's history.
pub proof fn law_log_accepted(log: Seq<StatusEntryView>)
    ensures
        log_problem(log, log_days(log)) is None <==> valid_log(log),
{
    lemma_undated(log_days(log), 0);
    lemma_backdated(log_days(log), 1);
    lemma_illegal(log, 1);
}

/// Whether something was read as the record layer allows: records have an id,
/// a decision has a date, and a force has a history.
pub open spec fn well_read(p: ParsedView) -> bool {
    match p {
        ParsedView::Decision(d) => d.id.len() > 0 && iso_day(d.date) is Some,
        ParsedView::Force(f) => f.id.len() > 0 && valid_log(f.status_log),
        ParsedView::Error(_) => true,
    }
}

/// Whatever is read is well read, and carries the path that it was read from.
pub proof fn law_parsed_is_well_read(
    path: Seq<char>,
    decoded: Result<RawRecordView, Seq<char>>,
    body: Seq<char>,
)
    ensures
        well_read(record_from(path, decoded, body)),
        path_of(record_from(path, decoded, body)) == path,
{
    if let Ok(raw) = decoded {
        law_log_accepted(raw.status_log);
    }
}

/// The path of the file that something was read from.
pub open spec fn path_of(p: ParsedView) -> Seq<char> {
    match p {
        ParsedView::Decision(d) => d.path,
        ParsedView::Force(f) => f.path,
        ParsedView::Error(e) => e.path,
    }
}

/// What stands between the delimiters is the frontmatter, and what stands
/// behind them the body, whichever line breaks the file has.
pub proof fn law_frontmatter_stands_between_delimiters(
    open_mark: Seq<char>,
    yaml: Seq<char>,
    close_mark: Seq<char>,
    line_break: Seq<char>,
    body: Seq<char>,
)
    requires
        open_mark == "---\n"@ || open_mark == "---\r\n"@,
        close_mark == "\n---"@ || close_mark == "\r\n---"@,
        line_break == "\n"@ || line_break == "\r\n"@ || (line_break.len() == 0 && body.len() > 0
            && body[0] != '\n' && body[0] != '\r'),
        forall|p: int|
            0 <= p < yaml.len() && #[trigger] yaml[p] == '\n' ==> p + 1 < yaml.len() && yaml[p + 1]
                != '-',
        close_mark == "\n---"@ && yaml.len() > 0 ==> yaml.last() != '\r',
    ensures
        frontmatter(open_mark + yaml + close_mark + line_break + body) == Some((yaml, body)),
{
    reveal_strlit("---\n");
    reveal_strlit("---\r\n");
    reveal_strlit("\n---");
    reveal_strlit("\r\n---");
    reveal_strlit("\n");
    reveal_strlit("\r\n");
    let text = open_mark + yaml + close_mark + line_break + body;
    let t = yaml + close_mark + line_break + body;
    let n = yaml.len() as int;
    assert(text.subrange(0, open_mark.len() as int) =~= open_mark);
    assert(text.skip(open_mark.len() as int) =~= t);
    if open_mark == "---\r\n"@ && stands_at(text, "---\n"@, 0) {
        assert(text.subrange(0, 4)[3] == '\n');
        assert(text[3] == open_mark[3]);
    }
    assert(opened(text) == Some(t));
    let wide = close_mark.len() as int - 4;
    let at = n + wide;
    assert(wide == 0 || wide == 1);
    assert(t.subrange(at, at + 4) =~= "\n---"@);
    assert(stands_at(t, "\n---"@, at));
    assert forall|i: int| 0 <= i < at implies !#[trigger] stands_at(t, "\n---"@, i) by {
        if stands_at(t, "\n---"@, i) {
            assert(t.subrange(i, i + 4)[0] == '\n');
            assert(t.subrange(i, i + 4)[1] == '-');
            if i < n {
                assert(t[i] == yaml[i]);
                assert(t[i + 1] == yaml[i + 1]);
            } else {
                assert(t[i] == close_mark[0]);
            }
        }
    }
    lemma_found_first(t, "\n---"@, 0, at);
    if wide == 1 {
        assert(t[at - 1] == close_mark[0]);
    } else if n > 0 {
        assert(t[at - 1] == yaml[n - 1]);
    }
    assert(closing(t) == Some((n, 4 + wide)));
    assert(t.take(n) =~= yaml);
    let rest = t.skip(n + 4 + wide);
    assert(rest =~= line_break + body);
    assert(rest.subrange(0, line_break.len() as int) =~= line_break);
    assert(rest.skip(line_break.len() as int) =~= body);
    if line_break == "\r\n"@ {
        if stands_at(rest, "\n"@, 0) {
            assert(rest.subrange(0, 1)[0] == '\n');
            assert(rest[0] == line_break[0]);
        }
    } else if line_break.len() == 0 {
        assert(rest =~= body);
        if stands_at(rest, "\n"@, 0) {
            assert(rest.subrange(0, 1)[0] == '\n');
        }
        if stands_at(rest, "\r\n"@, 0) {
            assert(rest.subrange(0, 2)[0] == '\r');
        }
    }
    assert(after_break(rest) == body);
}

proof fn lemma_found_somewhere(s: Seq<char>, pat: Seq<char>, from: int, p: int)
    requires
        0 <= from <= p,
        stands_at(s, pat, p),
    ensures
        found_from(s, pat, from) is Some,
    decreases p - from,
{
    if !stands_at(s, pat, from) {
        lemma_found_somewhere(s, pat, from + 1, p);
    }
}

/// A file has frontmatter exactly where it starts with a line of three hyphens
/// and some later line starts with three hyphens.
pub proof fn law_frontmatter_needs_both_delimiters(text: Seq<char>)
    ensures
        frontmatter(text) is Some <==> (stands_at(text, "---\n"@, 0) && exists|p: int|
            4 <= p && #[trigger] stands_at(text, "\n---"@, p)) || (stands_at(text, "---\r\n"@, 0)
            && exists|p: int| 5 <= p && #[trigger] stands_at(text, "\n---"@, p)),
{
    reveal_strlit("---\n");
    reveal_strlit("---\r\n");
    reveal_strlit("\n---");
    let pat = "\n---"@;
    if stands_at(text, "---\n"@, 0) && stands_at(text, "---\r\n"@, 0) {
        assert(text.subrange(0, 4)[3] == '\n');
        assert(text.subrange(0, 5)[3] == '\r');
    }
    if opened(text) is Some {
        let n = if stands_at(text, "---\n"@, 0) {
            4int
        } else {
            5
        };
        let t = opened(text)->0;
        assert(t =~= text.skip(n));
        if found_from(t, pat, 0) is Some {
            lemma_found_in_more(t, Seq::empty(), pat, 0);
            let p = found_from(t, pat, 0)->0;
            assert(text.subrange(n + p, n + p + 4) =~= t.subrange(p, p + 4));
            assert(stands_at(text, pat, n + p));
        }
        if exists|p: int| n <= p && #[trigger] stands_at(text, pat, p) {
            let p = choose|p: int| n <= p && #[trigger] stands_at(text, pat, p);
            assert(t.subrange(p - n, p - n + 4) =~= text.subrange(p, p + 4));
            assert(stands_at(t, pat, p - n));
            lemma_found_somewhere(t, pat, 0, p - n);
        }
    }
}

/// A file is a decision exactly where its frontmatter is read as one: with an
/// id, the type, a status and a date. All of its fields are those that were
/// read.
pub proof fn law_decisions_are_what_is_written(
    path: Seq<char>,
    raw: RawRecordView,
    body: Seq<char>,
)
    ensures
        ({
            let p = record_from(path, Ok(raw), body);
            &&& p is Decision <==> raw.id.len() > 0 && raw.rec_type == "decision"@
                && raw.status is Some && raw.date is Some && iso_day(raw.date->0) is Some
            &&& p matches ParsedView::Decision(d) ==> {
                &&& d.id == raw.id
                &&& d.title == raw.title
                &&& Some(d.status) == raw.status
                &&& Some(d.date) == raw.date
                &&& d.cites == raw.cites
                &&& d.supersedes == raw.supersedes
                &&& d.relates == raw.relates
                &&& d.anchors == raw.anchors
                &&& d.tags == raw.tags
                &&& d.body == body
                &&& d.path == path
            }
        }),
{
    lemma_types_apart();
}

proof fn lemma_types_apart()
    ensures
        "decision"@ != "force"@,
{
    reveal_strlit("force");
    reveal_strlit("decision");
    assert("force"@.len() == 5 && "decision"@.len() == 8);
}

/// A file is a force exactly where its frontmatter is read as one: with an id,
/// the type, and a log that has entries, all of them dated, none before the
/// one in front of it, and each a step from holding to changed or retired, or
/// from changed to retired. All of its fields are those that were read.
pub proof fn law_forces_are_what_is_written(path: Seq<char>, raw: RawRecordView, body: Seq<char>)
    ensures
        ({
            let p = record_from(path, Ok(raw), body);
            let log = raw.status_log;
            &&& p is Force <==> raw.id.len() > 0 && raw.rec_type == "force"@ && log.len() > 0 && (
            forall|i: int| 0 <= i < log.len() ==> iso_day((#[trigger] log[i]).since) is Some) && (
            forall|i: int, j: int|
                0 <= i && j == i + 1 && j < log.len() ==> {
                    let a = #[trigger] log[i];
                    let b = #[trigger] log[j];
                    &&& iso_day(a.since)->0 <= iso_day(b.since)->0
                    &&& (a.status == ForceStatus::Holds && b.status != ForceStatus::Holds) || (
                    a.status == ForceStatus::Changed && b.status == ForceStatus::Retired)
                })
            &&& p matches ParsedView::Force(f) ==> {
                &&& f.id == raw.id
                &&& f.title == raw.title
                &&& f.depends_on == raw.depends_on
                &&& f.status_log == raw.status_log
                &&& f.superseded_by == raw.superseded_by
                &&& f.tags == raw.tags
                &&& f.body == body
                &&& f.path == path
            }
        }),
{
    lemma_types_apart();
    let log = raw.status_log;
    let days = log_days(log);
    law_log_accepted(log);
    assert forall|i: int| 0 <= i < log.len() implies #[trigger] days[i] == iso_day(log[i].since) by {}
    if valid_log(log) {
        assert forall|i: int| 0 <= i < log.len() implies iso_day((#[trigger] log[i]).since) is Some by {
            assert(days[i] is Some);
        }
        assert forall|i: int, j: int| 0 <= i && j == i + 1 && j < log.len() implies {
            let a = #[trigger] log[i];
            let b = #[trigger] log[j];
            &&& iso_day(a.since)->0 <= iso_day(b.since)->0
            &&& (a.status == ForceStatus::Holds && b.status != ForceStatus::Holds) || (a.status
                == ForceStatus::Changed && b.status == ForceStatus::Retired)
        } by {
            assert(follows(days, j));
            assert(passes(log, j));
        }
    }
    if log.len() > 0 && (forall|i: int|
        0 <= i < log.len() ==> iso_day((#[trigger] log[i]).since) is Some) && (forall|
        i: int,
        j: int,
    |
        0 <= i && j == i + 1 && j < log.len() ==> {
            let a = #[trigger] log[i];
            let b = #[trigger] log[j];
            &&& iso_day(a.since)->0 <= iso_day(b.since)->0
            &&& (a.status == ForceStatus::Holds && b.status != ForceStatus::Holds) || (a.status
                == ForceStatus::Changed && b.status == ForceStatus::Retired)
        }) {
        assert forall|i: int| 1 <= i < log.len() implies #[trigger] follows(days, i) by {
            assert(days[i - 1] == iso_day(log[i - 1].since));
            assert(days[i] == iso_day(log[i].since));
        }
        assert forall|i: int| 1 <= i < log.len() implies #[trigger] passes(log, i) by {
            assert(log[i - 1].status != log[i].status);
        }
        assert(valid_log(log));
    }
}

/// Why a file is no record. An id that is missing is told of first, then a type
/// that is none, then what a decision lacks.
pub proof fn law_files_that_are_no_records_say_why(
    path: Seq<char>,
    raw: RawRecordView,
    message: Seq<char>,
    body: Seq<char>,
)
    ensures
        record_from(path, Err(message), body) == ParsedView::Error(
            ParseErrorView { path, message },
        ),
        ({
            let p = record_from(path, Ok(raw), body);
            let e = p->Error_0;
            &&& p is Error ==> e.path == path
            &&& raw.id.len() == 0 ==> p is Error && e.message == "id must not be empty"@
            &&& raw.id.len() > 0 && raw.rec_type != "decision"@ && raw.rec_type != "force"@ ==> p
                is Error && e.message == "unknown record type: "@ + raw.rec_type
            &&& raw.id.len() > 0 && raw.rec_type == "decision"@ && raw.status is None ==> p is Error
                && e.message == "decision requires a status field"@
            &&& raw.id.len() > 0 && raw.rec_type == "decision"@ && raw.status is Some
                && raw.date is None ==> p is Error && e.message
                == "decision requires a date field"@
            &&& raw.id.len() > 0 && raw.rec_type == "decision"@ && raw.status is Some
                && raw.date is Some && iso_day(raw.date->0) is None ==> p is Error && e.message
                == "invalid date format: "@ + raw.date->0
            &&& raw.id.len() > 0 && raw.rec_type == "force"@ && raw.status_log.len() == 0 ==> p
                is Error && e.message == "status_log must not be empty"@
        }),
{
    lemma_types_apart();
}

proof fn lemma_first_undated(days: Seq<Option<i32>>, from: int, i: int)
    requires
        0 <= from <= i < days.len(),
        days[i] is None,
        forall|j: int| from <= j < i ==> (#[trigger] days[j]) is Some,
    ensures
        undated_from(days, from) == Some(i),
    decreases i - from,
{
    if from < i {
        assert(days[from] is Some);
        lemma_first_undated(days, from + 1, i);
    }
}

proof fn lemma_first_backdated(days: Seq<Option<i32>>, from: int, i: int)
    requires
        1 <= from <= i < days.len(),
        !follows(days, i),
        forall|j: int| from <= j < i ==> #[trigger] follows(days, j),
    ensures
        backdated_from(days, from) == Some(i),
    decreases i - from,
{
    if from < i {
        assert(follows(days, from));
        lemma_first_backdated(days, from + 1, i);
    }
}

proof fn lemma_first_illegal(log: Seq<StatusEntryView>, from: int, i: int)
    requires
        1 <= from <= i < log.len(),
        !passes(log, i),
        forall|j: int| from <= j < i ==> #[trigger] passes(log, j),
    ensures
        illegal_from(log, from) == Some(i),
    decreases i - from,
{
    if from < i {
        assert(passes(log, from));
        lemma_first_illegal(log, from + 1, i);
    }
}

/// The first entry of a log that has no date is the one that is told of.
pub proof fn law_logs_without_dates_say_so(log: Seq<StatusEntryView>, i: int)
    requires
        0 <= i < log.len(),
        iso_day(log[i].since) is None,
        forall|j: int| 0 <= j < i ==> iso_day((#[trigger] log[j]).since) is Some,
    ensures
        log_problem(log, log_days(log)) == Some("invalid date in status_log: "@ + log[i].since),
{
    let days = log_days(log);
    assert forall|j: int| 0 <= j < i implies (#[trigger] days[j]) is Some by {
        assert(iso_day(log[j].since) is Some);
    }
    lemma_first_undated(days, 0, i);
}

/// The first entry of a dated log that lies before the one in front of it is
/// the one that is told of.
pub proof fn law_logs_that_go_back_say_so(log: Seq<StatusEntryView>, i: int)
    requires
        1 <= i < log.len(),
        forall|j: int| 0 <= j < log.len() ==> iso_day((#[trigger] log[j]).since) is Some,
        iso_day(log[i].since)->0 < iso_day(log[i - 1].since)->0,
        forall|j: int, k: int|
            0 <= j && k == j + 1 && k < i ==> iso_day((#[trigger] log[j]).since)->0 <= iso_day(
                (#[trigger] log[k]).since,
            )->0,
    ensures
        log_problem(log, log_days(log)) == Some(
            "status_log entries must be in date order: "@ + log[i].since + " is before "@ + log[i
                - 1].since,
        ),
{
    let days = log_days(log);
    lemma_undated(days, 0);
    assert forall|j: int| 0 <= j < days.len() implies (#[trigger] days[j]) is Some by {
        assert(iso_day(log[j].since) is Some);
    }
    assert forall|j: int| 1 <= j < i implies #[trigger] follows(days, j) by {
        assert(iso_day(log[j - 1].since)->0 <= iso_day(log[j].since)->0);
    }
    lemma_first_backdated(days, 1, i);
}

/// The first step of a log in date order that may not be taken is the one that
/// is told of.
pub proof fn law_logs_with_false_steps_say_so(log: Seq<StatusEntryView>, i: int)
    requires
        1 <= i < log.len(),
        forall|j: int| 0 <= j < log.len() ==> iso_day((#[trigger] log[j]).since) is Some,
        forall|j: int, k: int|
            0 <= j && k == j + 1 && k < log.len() ==> iso_day((#[trigger] log[j]).since)->0
                <= iso_day((#[trigger] log[k]).since)->0,
        log[i - 1].status == log[i].status || log[i - 1].status == ForceStatus::Retired
            || log[i].status == ForceStatus::Holds,
        forall|j: int, k: int|
            0 <= j && k == j + 1 && k < i ==> {
                let a = #[trigger] log[j];
                let b = #[trigger] log[k];
                (a.status == ForceStatus::Holds && b.status != ForceStatus::Holds) || (a.status
                    == ForceStatus::Changed && b.status == ForceStatus::Retired)
            },
    ensures
        ({
            let m = log_problem(log, log_days(log));
            let passage = status_label(log[i - 1].status) + " -> "@ + status_label(log[i].status);
            if log[i - 1].status == log[i].status {
                m == Some("consecutive statuses must not be identical: "@ + passage)
            } else {
                m == Some("illegal status transition: "@ + passage)
            }
        }),
{
    let days = log_days(log);
    lemma_undated(days, 0);
    lemma_backdated(days, 1);
    assert forall|j: int| 0 <= j < days.len() implies (#[trigger] days[j]) is Some by {
        assert(iso_day(log[j].since) is Some);
    }
    assert forall|j: int| 1 <= j < days.len() implies #[trigger] follows(days, j) by {
        assert(iso_day(log[j - 1].since)->0 <= iso_day(log[j].since)->0);
    }
    assert forall|j: int| 1 <= j < i implies #[trigger] passes(log, j) by {
        assert(log[j - 1].status != log[j].status);
    }
    assert(!passes(log, i));
    lemma_first_illegal(log, 1, i);
}

/// A file without frontmatter is no record, and is told to be so.
pub proof fn law_files_without_frontmatter_say_so<F: Fn(&str) -> Result<RawRecord, String>>(
    decode: F,
    path: Seq<char>,
    text: Seq<char>,
    p: ParsedView,
)
    requires
        reads(decode, path, text, p),
        frontmatter(text) is None,
    ensures
        p == ParsedView::Error(
            ParseErrorView { path, message: "missing frontmatter delimiter"@ },
        ),
{
}

/// What a file is read as depends on what its decoder makes of the text between
/// its delimiters, and on what stands behind them.
pub proof fn law_files_are_read_through_their_decoder<F: Fn(&str) -> Result<RawRecord, String>>(
    decode: F,
    path: Seq<char>,
    text: Seq<char>,
    yaml: Seq<char>,
    body: Seq<char>,
    p: ParsedView,
)
    requires
        reads(decode, path, text, p),
        frontmatter(text) == Some((yaml, body)),
    ensures
        exists|y: &str, decoded: Result<RawRecord, String>|
            {
                &&& #[trigger] call_ensures(decode, (y,), decoded)
                &&& y@ == yaml
                &&& match decoded {
                    Err(m) => p == ParsedView::Error(ParseErrorView { path, message: m@ }),
                    Ok(raw) => p == record_from(path, Ok(raw@), body),
                }
            },
{
    let (y, decoded) = choose|y: &str, decoded: Result<RawRecord, String>| #[trigger]
        call_ensures(decode, (y,), decoded) && y@ == yaml && p == record_from(
            path,
            decoded_view(decoded),
            body,
        );
    assert(call_ensures(decode, (y,), decoded));
}

/// The names by which messages speak of a force's status.
pub proof fn law_statuses_are_named_in_messages()
    ensures
        status_label(ForceStatus::Holds) == "Holds"@,
        status_label(ForceStatus::Changed) == "Changed"@,
        status_label(ForceStatus::Retired) == "Retired"@,
{
}

} // verus!
