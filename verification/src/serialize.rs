//! Writing records down: the inverse of reading them.
use vstd::prelude::*;
use crate::recall::{decision_status_name, decision_status_view};
use crate::record::{
    after_break, behind, closing, decoded_view, frontmatter, iso_day, law_log_accepted, opened,
    reads, record_from, valid_log, Decision, DecisionStatus, DecisionView, Force, ForceStatus,
    ForceView, ParsedView, RawRecord, RawRecordView, StatusEntryView,
};
use crate::report::{force_status_name, status_name};
use crate::text::{
    chars_of, code, join2, join3, join_texts, joined_texts, lemma_found_first,
    stands_at, text_of, views,
};

verus! {

/// The hexadecimal digit of a number below sixteen.
pub open spec fn hex_digit(n: int) -> char {
    if n < 10 {
        ('0' as int + n) as char
    } else {
        ('a' as int + (n - 10)) as char
    }
}

/// A number below 65536 as four hexadecimal digits.
pub open spec fn hex4(n: int) -> Seq<char> {
    seq![
        hex_digit(n / 4096 % 16),
        hex_digit(n / 256 % 16),
        hex_digit(n / 16 % 16),
        hex_digit(n % 16),
    ]
}

/// Whether a character is written down by its number: it is a control
/// character, or breaks lines, or is none that may stand in YAML.
pub open spec fn is_special(c: char) -> bool {
    let u = c as int;
    u < 32 || 127 <= u <= 160 || u == 0x2028 || u == 0x2029 || u == 0xfeff || u == 0xfffe || u
        == 0xffff
}

/// A character inside double quotes.
pub open spec fn escape(c: char) -> Seq<char> {
    if c == '"' || c == '\\' {
        seq!['\\', c]
    } else if c == '\n' {
        seq!['\\', 'n']
    } else if c == '\r' {
        seq!['\\', 'r']
    } else if c == '\t' {
        seq!['\\', 't']
    } else if is_special(c) {
        seq!['\\', 'u'] + hex4(c as int)
    } else {
        seq![c]
    }
}

/// A text inside double quotes.
pub open spec fn escaped(s: Seq<char>) -> Seq<char>
    decreases s.len(),
{
    if s.len() == 0 {
        Seq::empty()
    } else {
        escaped(s.drop_last()) + escape(s.last())
    }
}

/// A text as a double-quoted scalar.
pub open spec fn quoted(s: Seq<char>) -> Seq<char> {
    seq!['"'] + escaped(s) + seq!['"']
}

/// A list of texts as a flow sequence of double-quoted scalars.
pub open spec fn quoted_list(items: Seq<Seq<char>>) -> Seq<char> {
    "["@ + joined_texts(items.map_values(|s: Seq<char>| quoted(s)), ", "@) + "]"@
}

/// The line of a list, if it has elements.
pub open spec fn list_line(key: Seq<char>, items: Seq<Seq<char>>) -> Seq<Seq<char>> {
    if items.len() == 0 {
        Seq::empty()
    } else {
        seq![key + quoted_list(items)]
    }
}

/// The line of one entry of a status log.
pub open spec fn log_line(e: StatusEntryView) -> Seq<char> {
    "  - { status: "@ + status_name(e.status) + ", since: "@ + quoted(e.since) + " }"@
}

/// The lines of a force's frontmatter.
pub open spec fn force_lines(f: ForceView) -> Seq<Seq<char>> {
    seq!["id: "@ + quoted(f.id), "type: force"@, "title: "@ + quoted(f.title)] + list_line(
        "dependsOn: "@,
        f.depends_on,
    ) + seq!["status_log:"@] + f.status_log.map_values(|e: StatusEntryView| log_line(e)) + (
    match f.superseded_by {
        Some(id) => seq!["supersededBy: "@ + quoted(id)],
        None => Seq::empty(),
    }) + list_line("tags: "@, f.tags)
}

/// The lines of a decision's frontmatter, with its anchors as they are given.
pub open spec fn decision_lines(d: DecisionView, anchors: Seq<char>) -> Seq<Seq<char>> {
    seq![
        "id: "@ + quoted(d.id),
        "type: decision"@,
        "title: "@ + quoted(d.title),
        "status: "@ + decision_status_view(d.status),
        "date: "@ + quoted(d.date),
    ] + list_line("cites: "@, d.cites) + list_line("supersedes: "@, d.supersedes) + list_line(
        "relates: "@,
        d.relates,
    ) + (if d.anchors.len() == 0 {
        Seq::empty()
    } else {
        seq!["anchors: "@ + anchors]
    }) + list_line("tags: "@, d.tags)
}

/// A file with the given lines of frontmatter and the given body.
pub open spec fn file_text(lines: Seq<Seq<char>>, body: Seq<char>) -> Seq<char> {
    "---\n"@ + joined_texts(lines, "\n"@) + "\n---\n"@ + body
}

fn hex_of(n: u32) -> (r: char)
    requires
        n < 16,
    ensures
        r == hex_digit(n as int),
{
    match n {
        0 => '0',
        1 => '1',
        2 => '2',
        3 => '3',
        4 => '4',
        5 => '5',
        6 => '6',
        7 => '7',
        8 => '8',
        9 => '9',
        10 => 'a',
        11 => 'b',
        12 => 'c',
        13 => 'd',
        14 => 'e',
        _ => 'f',
    }
}

fn push_escaped(c: char, out: &mut Vec<char>)
    ensures
        final(out)@ == old(out)@ + escape(c),
{
    let ghost first = out@;
    let u: u32 = code(c);
    if c == '"' || c == '\\' {
        out.push('\\');
        out.push(c);
    } else if c == '\n' {
        out.push('\\');
        out.push('n');
    } else if c == '\r' {
        out.push('\\');
        out.push('r');
    } else if c == '\t' {
        out.push('\\');
        out.push('t');
    } else if u < 32 || (127 <= u && u <= 160) || u == 0x2028 || u == 0x2029 || u == 0xfeff || u
        == 0xfffe || u == 0xffff {
        out.push('\\');
        out.push('u');
        out.push(hex_of(u / 4096 % 16));
        out.push(hex_of(u / 256 % 16));
        out.push(hex_of(u / 16 % 16));
        out.push(hex_of(u % 16));
    } else {
        out.push(c);
    }
    assert(out@ =~= first + escape(c));
}

/// Writes a text down as a double-quoted scalar.
pub fn quote(s: &str) -> (r: String)
    ensures
        r@ == quoted(s@),
{
    let chars = chars_of(s);
    let mut out: Vec<char> = Vec::new();
    out.push('"');
    let ghost head = seq!['"'];
    assert(out@ =~= head + escaped(chars@.take(0)));
    for i in 0..chars.len()
        invariant
            head == seq!['"'],
            out@ == head + escaped(chars@.take(i as int)),
    {
        assert(chars@.take(i + 1).drop_last() =~= chars@.take(i as int));
        push_escaped(chars[i], &mut out);
        assert(out@ =~= head + escaped(chars@.take(i + 1)));
    }
    assert(chars@.take(chars.len() as int) =~= chars@);
    out.push('"');
    assert(out@ =~= quoted(s@));
    text_of(&out)
}

fn quote_list(items: &Vec<String>) -> (r: String)
    ensures
        r@ == quoted_list(views(items@)),
{
    let mut parts: Vec<String> = Vec::new();
    for i in 0..items.len()
        invariant
            parts.len() == i,
            forall|j: int| 0 <= j < i ==> (#[trigger] parts@[j])@ == quoted(items@[j]@),
    {
        parts.push(quote(items[i].as_str()));
    }
    assert(views(parts@) =~= views(items@).map_values(|s: Seq<char>| quoted(s)));
    join3("[", join_texts(&parts, ", ").as_str(), "]")
}

fn push_line(line: String, out: &mut Vec<String>)
    ensures
        views(final(out)@) == views(old(out)@) + seq![line@],
{
    let ghost first = views(out@);
    out.push(line);
    assert(views(out@) =~= first + seq![line@]);
}

fn push_list(key: &str, items: &Vec<String>, out: &mut Vec<String>)
    ensures
        views(final(out)@) == views(old(out)@) + list_line(key@, views(items@)),
{
    let ghost first = views(out@);
    assert(views(items@).len() == items@.len());
    if items.len() > 0 {
        push_line(join2(key, quote_list(items).as_str()), out);
    } else {
        assert(first + Seq::<Seq<char>>::empty() =~= first);
    }
}

/// Writes a force down.
pub fn serialize_force(f: &Force) -> (r: String)
    ensures
        r@ == file_text(force_lines(f@), f@.body),
{
    let mut out: Vec<String> = Vec::new();
    out.push(join2("id: ", quote(f.id.as_str()).as_str()));
    out.push("type: force".to_string());
    out.push(join2("title: ", quote(f.title.as_str()).as_str()));
    assert(views(out@) =~= seq![
        "id: "@ + quoted(f@.id),
        "type: force"@,
        "title: "@ + quoted(f@.title),
    ]);
    push_list("dependsOn: ", &f.depends_on, &mut out);
    push_line("status_log:".to_string(), &mut out);
    let ghost head = views(out@);
    let ghost log = f@.status_log.map_values(|e: StatusEntryView| log_line(e));
    assert(head + log.take(0) =~= head);
    for i in 0..f.status_log.len()
        invariant
            log == f@.status_log.map_values(|e: StatusEntryView| log_line(e)),
            views(out@) == head + log.take(i as int),
    {
        let ghost before = views(out@);
        let e = &f.status_log[i];
        assert(f@.status_log[i as int] == e@);
        let start = join3("  - { status: ", force_status_name(e.status), ", since: ");
        let line = join3(start.as_str(), quote(e.since.as_str()).as_str(), " }");
        assert(line@ == log[i as int]);
        push_line(line, &mut out);
        assert(before + seq![line@] =~= head + log.take(i + 1));
    }
    assert(log.take(log.len() as int) =~= log);
    let ghost logged = views(out@);
    match &f.superseded_by {
        Some(id) => {
            push_line(join2("supersededBy: ", quote(id.as_str()).as_str()), &mut out);
        },
        None => {
            assert(logged + Seq::<Seq<char>>::empty() =~= logged);
        },
    }
    push_list("tags: ", &f.tags, &mut out);
    assert(views(out@) == force_lines(f@));
    assemble(&out, f.body.as_str())
}

/// Writes a decision down. `anchors` is its anchors as a YAML flow sequence.
pub fn serialize_decision(d: &Decision, anchors: &str) -> (r: String)
    ensures
        r@ == file_text(decision_lines(d@, anchors@), d@.body),
{
    let mut out: Vec<String> = Vec::new();
    out.push(join2("id: ", quote(d.id.as_str()).as_str()));
    out.push("type: decision".to_string());
    out.push(join2("title: ", quote(d.title.as_str()).as_str()));
    out.push(join2("status: ", decision_status_name(d.status)));
    out.push(join2("date: ", quote(d.date.as_str()).as_str()));
    assert(views(out@) =~= seq![
        "id: "@ + quoted(d@.id),
        "type: decision"@,
        "title: "@ + quoted(d@.title),
        "status: "@ + decision_status_view(d@.status),
        "date: "@ + quoted(d@.date),
    ]);
    push_list("cites: ", &d.cites, &mut out);
    push_list("supersedes: ", &d.supersedes, &mut out);
    push_list("relates: ", &d.relates, &mut out);
    let ghost before = views(out@);
    if d.anchors.len() > 0 {
        push_line(join2("anchors: ", anchors), &mut out);
    } else {
        assert(before + Seq::<Seq<char>>::empty() =~= before);
    }
    push_list("tags: ", &d.tags, &mut out);
    assert(views(out@) == decision_lines(d@, anchors@));
    assemble(&out, d.body.as_str())
}

fn assemble(lines: &Vec<String>, body: &str) -> (r: String)
    ensures
        r@ == file_text(views(lines@), body@),
{
    let head = join3("---\n", join_texts(lines, "\n").as_str(), "\n---\n");
    join2(head.as_str(), body)
}

/// Whether a text holds no line break.
pub open spec fn is_one_line(s: Seq<char>) -> bool {
    forall|i: int| 0 <= i < s.len() ==> #[trigger] s[i] != '\n' && s[i] != '\r'
}

/// Whether a text can stand as a line of frontmatter: it is one line, and does
/// not start with a hyphen.
pub open spec fn is_field_line(s: Seq<char>) -> bool {
    s.len() > 0 && s[0] != '-' && is_one_line(s)
}

/// Whether a text can stand between the delimiters of frontmatter: none of its
/// lines but the first starts with a hyphen, and it does not end in a line break.
pub open spec fn can_be_framed(y: Seq<char>) -> bool {
    forall|p: int|
        0 <= p < y.len() ==> #[trigger] y[p] != '\r' && (y[p] == '\n' ==> p + 1 < y.len() && y[p + 1]
            != '-')
}

proof fn lemma_escape_one_line(c: char)
    ensures
        is_one_line(escape(c)),
{
    let n = c as int;
    assert(0 <= n / 4096 % 16 < 16 && 0 <= n / 256 % 16 < 16 && 0 <= n / 16 % 16 < 16 && 0 <= n % 16
        < 16);
    assert forall|d: int| 0 <= d < 16 implies #[trigger] hex_digit(d) != '\n' && hex_digit(d)
        != '\r' by {}
    let h = hex4(n);
    assert(h[0] == hex_digit(n / 4096 % 16));
    assert(h[1] == hex_digit(n / 256 % 16));
    assert(h[2] == hex_digit(n / 16 % 16));
    assert(h[3] == hex_digit(n % 16));
}

proof fn lemma_one_line_sum(a: Seq<char>, b: Seq<char>)
    requires
        is_one_line(a),
        is_one_line(b),
    ensures
        is_one_line(a + b),
{
    assert forall|i: int| 0 <= i < (a + b).len() implies #[trigger] (a + b)[i] != '\n' && (a + b)[i]
        != '\r' by {
        if i < a.len() {
            assert((a + b)[i] == a[i]);
        } else {
            assert((a + b)[i] == b[i - a.len()]);
        }
    }
}

proof fn lemma_escaped_one_line(s: Seq<char>)
    ensures
        is_one_line(escaped(s)),
    decreases s.len(),
{
    if s.len() > 0 {
        lemma_escaped_one_line(s.drop_last());
        lemma_escape_one_line(s.last());
        lemma_one_line_sum(escaped(s.drop_last()), escape(s.last()));
    }
}

proof fn lemma_quoted_one_line(s: Seq<char>)
    ensures
        is_one_line(quoted(s)),
{
    lemma_escaped_one_line(s);
    lemma_one_line_sum(seq!['"'], escaped(s));
    lemma_one_line_sum(seq!['"'] + escaped(s), seq!['"']);
}

proof fn lemma_joined_one_line(parts: Seq<Seq<char>>, sep: Seq<char>)
    requires
        is_one_line(sep),
        forall|i: int| 0 <= i < parts.len() ==> is_one_line(#[trigger] parts[i]),
    ensures
        is_one_line(joined_texts(parts, sep)),
    decreases parts.len(),
{
    if parts.len() > 1 {
        let t = parts.drop_last();
        lemma_joined_one_line(t, sep);
        lemma_one_line_sum(joined_texts(t, sep), sep);
        lemma_one_line_sum(joined_texts(t, sep) + sep, parts.last());
    }
}

proof fn lemma_quoted_list_one_line(items: Seq<Seq<char>>)
    ensures
        is_one_line(quoted_list(items)),
{
    let parts = items.map_values(|s: Seq<char>| quoted(s));
    assert forall|i: int| 0 <= i < parts.len() implies is_one_line(#[trigger] parts[i]) by {
        lemma_quoted_one_line(items[i]);
    }
    reveal_strlit("[");
    reveal_strlit(", ");
    reveal_strlit("]");
    lemma_joined_one_line(parts, ", "@);
    lemma_one_line_sum("["@, joined_texts(parts, ", "@));
    lemma_one_line_sum("["@ + joined_texts(parts, ", "@), "]"@);
}

proof fn lemma_field_line(key: Seq<char>, value: Seq<char>)
    requires
        is_field_line(key),
        is_one_line(value),
    ensures
        is_field_line(key + value),
{
    lemma_one_line_sum(key, value);
}

/// Whether all texts of a list can stand as lines of frontmatter.
pub open spec fn are_field_lines(lines: Seq<Seq<char>>) -> bool {
    forall|i: int| 0 <= i < lines.len() ==> is_field_line(#[trigger] lines[i])
}

proof fn lemma_lines_sum(a: Seq<Seq<char>>, b: Seq<Seq<char>>)
    requires
        are_field_lines(a),
        are_field_lines(b),
    ensures
        are_field_lines(a + b),
{
    assert forall|i: int| 0 <= i < (a + b).len() implies is_field_line(#[trigger] (a + b)[i]) by {
        if i < a.len() {
            assert((a + b)[i] == a[i]);
        } else {
            assert((a + b)[i] == b[i - a.len()]);
        }
    }
}

proof fn lemma_list_line(key: Seq<char>, items: Seq<Seq<char>>)
    requires
        is_field_line(key),
    ensures
        are_field_lines(list_line(key, items)),
{
    lemma_quoted_list_one_line(items);
    lemma_field_line(key, quoted_list(items));
}

proof fn lemma_log_line(e: StatusEntryView)
    ensures
        is_field_line(log_line(e)),
{
    reveal_strlit("  - { status: ");
    reveal_strlit(", since: ");
    reveal_strlit(" }");
    reveal_strlit("holds");
    reveal_strlit("changed");
    reveal_strlit("retired");
    lemma_quoted_one_line(e.since);
    let a = "  - { status: "@;
    let b = status_name(e.status);
    lemma_field_line(a, b);
    lemma_field_line(a + b, ", since: "@);
    lemma_field_line(a + b + ", since: "@, quoted(e.since));
    lemma_field_line(a + b + ", since: "@ + quoted(e.since), " }"@);
}

/// The keys of fields can start lines.
proof fn lemma_keys()
    ensures
        is_field_line("id: "@),
        is_field_line("type: force"@),
        is_field_line("type: decision"@),
        is_field_line("title: "@),
        is_field_line("status: "@),
        is_field_line("date: "@),
        is_field_line("cites: "@),
        is_field_line("supersedes: "@),
        is_field_line("relates: "@),
        is_field_line("anchors: "@),
        is_field_line("dependsOn: "@),
        is_field_line("status_log:"@),
        is_field_line("supersededBy: "@),
        is_field_line("tags: "@),
{
    reveal_strlit("id: ");
    reveal_strlit("type: force");
    reveal_strlit("type: decision");
    reveal_strlit("title: ");
    reveal_strlit("status: ");
    reveal_strlit("date: ");
    reveal_strlit("cites: ");
    reveal_strlit("supersedes: ");
    reveal_strlit("relates: ");
    reveal_strlit("anchors: ");
    reveal_strlit("dependsOn: ");
    reveal_strlit("status_log:");
    reveal_strlit("supersededBy: ");
    reveal_strlit("tags: ");
}

proof fn lemma_status_one_line(s: DecisionStatus)
    ensures
        is_one_line(decision_status_view(s)),
{
    reveal_strlit("proposed");
    reveal_strlit("accepted");
    reveal_strlit("rejected");
    reveal_strlit("deprecated");
}

proof fn lemma_quoted_field(key: Seq<char>, s: Seq<char>)
    requires
        is_field_line(key),
    ensures
        is_field_line(key + quoted(s)),
{
    lemma_quoted_one_line(s);
    lemma_field_line(key, quoted(s));
}

proof fn lemma_force_lines(f: ForceView)
    ensures
        are_field_lines(force_lines(f)),
        force_lines(f).len() > 0,
{
    lemma_keys();
    lemma_quoted_field("id: "@, f.id);
    lemma_quoted_field("title: "@, f.title);
    let a = seq!["id: "@ + quoted(f.id), "type: force"@, "title: "@ + quoted(f.title)];
    assert(are_field_lines(a));
    let b = list_line("dependsOn: "@, f.depends_on);
    lemma_list_line("dependsOn: "@, f.depends_on);
    let c = seq!["status_log:"@];
    assert(are_field_lines(c));
    let d = f.status_log.map_values(|e: StatusEntryView| log_line(e));
    assert forall|i: int| 0 <= i < d.len() implies is_field_line(#[trigger] d[i]) by {
        lemma_log_line(f.status_log[i]);
    }
    let e = match f.superseded_by {
        Some(id) => seq!["supersededBy: "@ + quoted(id)],
        None => Seq::<Seq<char>>::empty(),
    };
    if let Some(id) = f.superseded_by {
        lemma_quoted_field("supersededBy: "@, id);
    }
    let g = list_line("tags: "@, f.tags);
    lemma_list_line("tags: "@, f.tags);
    lemma_lines_sum(a, b);
    lemma_lines_sum(a + b, c);
    lemma_lines_sum(a + b + c, d);
    lemma_lines_sum(a + b + c + d, e);
    lemma_lines_sum(a + b + c + d + e, g);
}

proof fn lemma_decision_lines(d: DecisionView, anchors: Seq<char>)
    requires
        is_one_line(anchors),
    ensures
        are_field_lines(decision_lines(d, anchors)),
        decision_lines(d, anchors).len() > 0,
{
    lemma_keys();
    lemma_status_one_line(d.status);
    lemma_quoted_field("id: "@, d.id);
    lemma_quoted_field("title: "@, d.title);
    lemma_quoted_field("date: "@, d.date);
    lemma_field_line("status: "@, decision_status_view(d.status));
    lemma_field_line("anchors: "@, anchors);
    let a = seq![
        "id: "@ + quoted(d.id),
        "type: decision"@,
        "title: "@ + quoted(d.title),
        "status: "@ + decision_status_view(d.status),
        "date: "@ + quoted(d.date),
    ];
    assert(are_field_lines(a));
    let b = list_line("cites: "@, d.cites);
    lemma_list_line("cites: "@, d.cites);
    let c = list_line("supersedes: "@, d.supersedes);
    lemma_list_line("supersedes: "@, d.supersedes);
    let e = list_line("relates: "@, d.relates);
    lemma_list_line("relates: "@, d.relates);
    let g = if d.anchors.len() == 0 {
        Seq::<Seq<char>>::empty()
    } else {
        seq!["anchors: "@ + anchors]
    };
    assert(are_field_lines(g));
    let h = list_line("tags: "@, d.tags);
    lemma_list_line("tags: "@, d.tags);
    lemma_lines_sum(a, b);
    lemma_lines_sum(a + b, c);
    lemma_lines_sum(a + b + c, e);
    lemma_lines_sum(a + b + c + e, g);
    lemma_lines_sum(a + b + c + e + g, h);
}

proof fn lemma_lines_framed(lines: Seq<Seq<char>>)
    requires
        are_field_lines(lines),
        lines.len() > 0,
    ensures
        can_be_framed(joined_texts(lines, "\n"@)),
    decreases lines.len(),
{
    reveal_strlit("\n");
    let y = joined_texts(lines, "\n"@);
    if lines.len() == 1 {
        assert(is_field_line(lines[0]));
    } else {
        let t = lines.drop_last();
        assert(are_field_lines(t)) by {
            assert forall|i: int| 0 <= i < t.len() implies is_field_line(#[trigger] t[i]) by {
                assert(t[i] == lines[i]);
            }
        }
        lemma_lines_framed(t);
        let before = joined_texts(t, "\n"@);
        let last = lines.last();
        assert(is_field_line(lines[lines.len() - 1]));
        let n = before.len() as int;
        assert(y =~= before + "\n"@ + last);
        assert forall|p: int| 0 <= p < y.len() implies #[trigger] y[p] != '\r' && (y[p] == '\n' ==> p
            + 1 < y.len() && y[p + 1] != '-') by {
            if p < n {
                assert(y[p] == before[p]);
                if p + 1 < n {
                    assert(y[p + 1] == before[p + 1]);
                }
            } else if p == n {
                assert(y[p + 1] == last[0]);
            } else {
                assert(y[p] == last[p - n - 1]);
            }
        }
    }
}

/// What is framed as frontmatter is taken out as it was put in, and so is the
/// body, whatever it holds.
pub proof fn law_frontmatter_round_trip(y: Seq<char>, body: Seq<char>)
    requires
        can_be_framed(y),
    ensures
        frontmatter("---\n"@ + y + "\n---\n"@ + body) == Some((y, body)),
{
    reveal_strlit("---\n");
    reveal_strlit("\n---\n");
    reveal_strlit("\n---");
    reveal_strlit("\n");
    let text = "---\n"@ + y + "\n---\n"@ + body;
    let t = y + "\n---\n"@ + body;
    let n = y.len() as int;
    assert(text.subrange(0, 4) =~= "---\n"@);
    assert(text.skip(4) =~= t);
    assert(opened(text) == Some(t));
    let narrow = "\n---"@;
    assert(t.subrange(n, n + 4) =~= narrow);
    assert(stands_at(t, narrow, n));
    assert forall|i: int| 0 <= i < n implies !#[trigger] stands_at(t, narrow, i) by {
        if stands_at(t, narrow, i) {
            assert(t.subrange(i, i + 4)[0] == '\n');
            assert(t.subrange(i, i + 4)[1] == '-');
            assert(t[i] == y[i]);
            assert(t[i + 1] == y[i + 1]);
        }
    }
    lemma_found_first(t, narrow, 0, n);
    if n > 0 {
        assert(t[n - 1] == y[n - 1]);
    }
    assert(closing(t) == Some((n, 4int)));
    assert(t.take(n) =~= y);
    let rest = t.skip(n + 4);
    assert(rest =~= "\n"@ + body);
    assert(rest.subrange(0, 1) =~= "\n"@);
    assert(behind(rest, "\n"@) == Some(rest.skip(1)));
    assert(rest.skip(1) =~= body);
    assert(after_break(rest) == body);
}

/// The fields of a force.
pub open spec fn force_fields(f: ForceView) -> RawRecordView {
    RawRecordView {
        id: f.id,
        rec_type: "force"@,
        title: f.title,
        status: None,
        date: None,
        cites: Seq::empty(),
        supersedes: Seq::empty(),
        relates: Seq::empty(),
        anchors: Seq::empty(),
        depends_on: f.depends_on,
        status_log: f.status_log,
        superseded_by: f.superseded_by,
        tags: f.tags,
    }
}

/// The fields of a decision.
pub open spec fn decision_fields(d: DecisionView) -> RawRecordView {
    RawRecordView {
        id: d.id,
        rec_type: "decision"@,
        title: d.title,
        status: Some(d.status),
        date: Some(d.date),
        cites: d.cites,
        supersedes: d.supersedes,
        relates: d.relates,
        anchors: d.anchors,
        depends_on: Seq::empty(),
        status_log: Seq::empty(),
        superseded_by: None,
        tags: d.tags,
    }
}

/// Whether a decoder gives back the fields whose text it is handed.
pub open spec fn decodes<F: Fn(&str) -> Result<RawRecord, String>>(
    decode: F,
    yaml: Seq<char>,
    fields: RawRecordView,
) -> bool {
    forall|y: &str, decoded: Result<RawRecord, String>| #[trigger]
        call_ensures(decode, (y,), decoded) && y@ == yaml ==> decoded_view(decoded) == Ok::<
            RawRecordView,
            Seq<char>,
        >(fields)
}

/// A force that is written down is read back as it was, where the decoder gives
/// back the fields that were written.
pub proof fn law_force_round_trip<F: Fn(&str) -> Result<RawRecord, String>>(
    decode: F,
    f: ForceView,
    p: ParsedView,
)
    requires
        f.id.len() > 0,
        valid_log(f.status_log),
        decodes(decode, joined_texts(force_lines(f), "\n"@), force_fields(f)),
        reads(decode, f.path, file_text(force_lines(f), f.body), p),
    ensures
        p == ParsedView::Force(f),
{
    lemma_force_lines(f);
    lemma_lines_framed(force_lines(f));
    let y = joined_texts(force_lines(f), "\n"@);
    law_frontmatter_round_trip(y, f.body);
    law_log_accepted(f.status_log);
    reveal_strlit("force");
    reveal_strlit("decision");
    assert("force"@ != "decision"@) by {
        assert("force"@.len() == 5);
        assert("decision"@.len() == 8);
    }
    let (t, decoded) = choose|t: &str, decoded: Result<RawRecord, String>| #[trigger]
        call_ensures(decode, (t,), decoded) && t@ == y && p == record_from(
            f.path,
            decoded_view(decoded),
            f.body,
        );
    assert(decoded_view(decoded) == Ok::<RawRecordView, Seq<char>>(force_fields(f)));
}

/// A decision that is written down is read back as it was, where the decoder
/// gives back the fields that were written.
pub proof fn law_decision_round_trip<F: Fn(&str) -> Result<RawRecord, String>>(
    decode: F,
    d: DecisionView,
    anchors: Seq<char>,
    p: ParsedView,
)
    requires
        d.id.len() > 0,
        iso_day(d.date) is Some,
        is_one_line(anchors),
        decodes(decode, joined_texts(decision_lines(d, anchors), "\n"@), decision_fields(d)),
        reads(decode, d.path, file_text(decision_lines(d, anchors), d.body), p),
    ensures
        p == ParsedView::Decision(d),
{
    lemma_decision_lines(d, anchors);
    lemma_lines_framed(decision_lines(d, anchors));
    let y = joined_texts(decision_lines(d, anchors), "\n"@);
    law_frontmatter_round_trip(y, d.body);
    let (t, decoded) = choose|t: &str, decoded: Result<RawRecord, String>| #[trigger]
        call_ensures(decode, (t,), decoded) && t@ == y && p == record_from(
            d.path,
            decoded_view(decoded),
            d.body,
        );
    assert(decoded_view(decoded) == Ok::<RawRecordView, Seq<char>>(decision_fields(d)));
}

/// The number that a hexadecimal digit stands for.
pub open spec fn hex_value(c: char) -> int {
    if '0' <= c && c <= '9' {
        c as int - '0' as int
    } else {
        c as int - 'a' as int + 10
    }
}

/// The text that stands inside double quotes: a backslash starts an escape,
/// which is `n`, `r` or `t` for a line feed, a carriage return or a tab, `u`
/// before four hexadecimal digits, or the character itself.
pub open spec fn unescaped(t: Seq<char>) -> Seq<char>
    decreases t.len(),
{
    if t.len() == 0 {
        Seq::empty()
    } else if t[0] != '\\' || t.len() == 1 {
        seq![t[0]] + unescaped(t.skip(1))
    } else if t[1] == 'n' {
        seq!['\n'] + unescaped(t.skip(2))
    } else if t[1] == 'r' {
        seq!['\r'] + unescaped(t.skip(2))
    } else if t[1] == 't' {
        seq!['\t'] + unescaped(t.skip(2))
    } else if t[1] == 'u' && t.len() >= 6 {
        let u = hex_value(t[2]) * 4096 + hex_value(t[3]) * 256 + hex_value(t[4]) * 16 + hex_value(
            t[5],
        );
        seq![u as char] + unescaped(t.skip(6))
    } else {
        seq![t[1]] + unescaped(t.skip(2))
    }
}

proof fn lemma_digits(n: int)
    requires
        0 <= n < 65536,
    ensures
        (n / 4096 % 16) * 4096 + (n / 256 % 16) * 256 + (n / 16 % 16) * 16 + n % 16 == n,
{
    let q = n / 16;
    let r = q / 16;
    let t = r / 16;
    assert(n == q * 16 + n % 16);
    assert(q == r * 16 + q % 16);
    assert(r == t * 16 + r % 16);
    assert(r == n / 256);
    assert(t == n / 4096);
    assert(0 <= t < 16);
    assert(t % 16 == t);
}

proof fn lemma_hex_digit(d: int)
    requires
        0 <= d < 16,
    ensures
        hex_value(hex_digit(d)) == d,
{
    if d < 10 {
        assert(('0' as int + d) as char as int == 48 + d);
    } else {
        assert(('a' as int + (d - 10)) as char as int == 97 + (d - 10));
    }
}

proof fn lemma_hex4(c: char)
    requires
        (c as int) < 65536,
    ensures
        ({
            let h = hex4(c as int);
            hex_value(h[0]) * 4096 + hex_value(h[1]) * 256 + hex_value(h[2]) * 16 + hex_value(h[3])
                == c as int
        }),
{
    let n = c as int;
    lemma_digits(n);
    lemma_hex_digit(n / 4096 % 16);
    lemma_hex_digit(n / 256 % 16);
    lemma_hex_digit(n / 16 % 16);
    lemma_hex_digit(n % 16);
}

/// What is written of a text starts with what is written of its first character.
proof fn lemma_escaped_first(s: Seq<char>)
    requires
        s.len() > 0,
    ensures
        escaped(s) == escape(s[0]) + escaped(s.skip(1)),
    decreases s.len(),
{
    if s.len() == 1 {
        assert(s.drop_last() =~= Seq::empty());
        assert(s.skip(1) =~= Seq::empty());
        assert(escaped(s.drop_last()) =~= Seq::empty());
        assert(escaped(s) =~= escape(s[0]) + escaped(s.skip(1)));
    } else {
        let t = s.drop_last();
        lemma_escaped_first(t);
        assert(s.skip(1).drop_last() =~= t.skip(1));
        assert(escaped(s) =~= escape(s[0]) + escaped(s.skip(1)));
    }
}

/// No escape starts with a quotation mark.
proof fn lemma_escape_start(c: char)
    ensures
        escape(c).len() > 0,
        escape(c)[0] != '"',
{
}

/// An escape is undone, and what stands behind it is left.
proof fn lemma_unescaped_first(c: char, rest: Seq<char>)
    ensures
        unescaped(escape(c) + rest) == seq![c] + unescaped(rest),
{
    let t = escape(c) + rest;
    let n = escape(c).len() as int;
    assert(t.skip(n) =~= rest);
    assert(t[0] == escape(c)[0]);
    if n == 2 {
        assert(t[1] == escape(c)[1]);
    } else if n == 6 {
        let h = hex4(c as int);
        lemma_hex4(c);
        assert(t[1] == 'u');
        assert(t[2] == h[0] && t[3] == h[1] && t[4] == h[2] && t[5] == h[3]);
    }
}

/// A text that is written in double quotes is what stands in them once the
/// escapes are undone.
pub proof fn law_quoted_text_is_read_back(s: Seq<char>)
    ensures
        quoted(s).len() >= 2,
        quoted(s)[0] == '"',
        quoted(s).last() == '"',
        unescaped(quoted(s).subrange(1, quoted(s).len() - 1)) == s,
{
    lemma_unescaped(s);
    assert(quoted(s).subrange(1, quoted(s).len() - 1) =~= escaped(s));
}

proof fn lemma_unescaped(s: Seq<char>)
    ensures
        unescaped(escaped(s)) == s,
    decreases s.len(),
{
    if s.len() > 0 {
        lemma_escaped_first(s);
        lemma_unescaped_first(s[0], escaped(s.skip(1)));
        lemma_unescaped(s.skip(1));
        assert(s =~= seq![s[0]] + s.skip(1));
    }
}

proof fn lemma_escape_apart(c: char, d: char, x: Seq<char>, y: Seq<char>)
    requires
        escape(c) + x == escape(d) + y,
    ensures
        c == d,
        x == y,
{
    lemma_unescaped_first(c, x);
    lemma_unescaped_first(d, y);
    assert((seq![c] + unescaped(x))[0] == c);
    assert((seq![d] + unescaped(y))[0] == d);
    let n = escape(c).len() as int;
    assert((escape(c) + x).skip(n) =~= x);
    assert((escape(d) + y).skip(n) =~= y);
}

proof fn lemma_escaped_start(s: Seq<char>, x: Seq<char>)
    ensures
        ({
            let p = escaped(s) + seq!['"'] + x;
            if s.len() > 0 {
                p[0] != '"' && p == escape(s[0]) + (escaped(s.skip(1)) + seq!['"'] + x)
            } else {
                p[0] == '"' && p.skip(1) == x
            }
        }),
{
    let p = escaped(s) + seq!['"'] + x;
    if s.len() > 0 {
        lemma_escaped_first(s);
        lemma_escape_start(s[0]);
        assert(p[0] == escape(s[0])[0]);
        assert(p =~= escape(s[0]) + (escaped(s.skip(1)) + seq!['"'] + x));
    } else {
        assert(escaped(s) =~= Seq::empty());
        assert(p.skip(1) =~= x);
    }
}

proof fn lemma_escaped_apart(a: Seq<char>, b: Seq<char>, x: Seq<char>, y: Seq<char>)
    requires
        escaped(a) + seq!['"'] + x == escaped(b) + seq!['"'] + y,
    ensures
        a == b,
        x == y,
    decreases a.len(),
{
    lemma_escaped_start(a, x);
    lemma_escaped_start(b, y);
    if a.len() > 0 && b.len() > 0 {
        let u = escaped(a.skip(1)) + seq!['"'] + x;
        let v = escaped(b.skip(1)) + seq!['"'] + y;
        lemma_escape_apart(a[0], b[0], u, v);
        lemma_escaped_apart(a.skip(1), b.skip(1), x, y);
        assert(a =~= seq![a[0]] + a.skip(1));
        assert(b =~= seq![b[0]] + b.skip(1));
    } else {
        assert(a =~= b);
    }
}

/// Where a text in double quotes ends is told from what is written: two texts
/// that are written in the same way, with anything behind them, are the same.
pub proof fn law_quoted_texts_end_where_they_end(
    a: Seq<char>,
    b: Seq<char>,
    x: Seq<char>,
    y: Seq<char>,
)
    requires
        quoted(a) + x == quoted(b) + y,
    ensures
        a == b,
        x == y,
{
    let p = quoted(a) + x;
    let q = quoted(b) + y;
    assert(p.skip(1) =~= escaped(a) + seq!['"'] + x);
    assert(q.skip(1) =~= escaped(b) + seq!['"'] + y);
    lemma_escaped_apart(a, b, x, y);
}

/// The elements of a list from one on, each behind a comma.
spec fn behind_commas(items: Seq<Seq<char>>, i: int) -> Seq<char>
    decreases items.len() - i,
{
    if i >= items.len() {
        Seq::empty()
    } else {
        ", "@ + quoted(items[i]) + behind_commas(items, i + 1)
    }
}

proof fn lemma_behind_commas(items: Seq<Seq<char>>, x: Seq<char>, i: int)
    requires
        0 <= i <= items.len(),
    ensures
        behind_commas(items.push(x), i) == behind_commas(items, i) + ", "@ + quoted(x),
    decreases items.len() - i,
{
    let all = items.push(x);
    if i < items.len() {
        lemma_behind_commas(items, x, i + 1);
        assert(all[i] == items[i]);
    } else {
        assert(behind_commas(all, i + 1) =~= Seq::empty());
        assert(all[i] == x);
    }
    assert(behind_commas(all, i) =~= behind_commas(items, i) + ", "@ + quoted(x));
}

proof fn lemma_list_from_the_front(items: Seq<Seq<char>>)
    requires
        items.len() > 0,
    ensures
        joined_texts(items.map_values(|s: Seq<char>| quoted(s)), ", "@) == quoted(items[0])
            + behind_commas(items, 1),
    decreases items.len(),
{
    let parts = items.map_values(|s: Seq<char>| quoted(s));
    if items.len() == 1 {
        assert(behind_commas(items, 1) =~= Seq::empty());
        assert(parts[0] =~= quoted(items[0]) + behind_commas(items, 1));
    } else {
        let t = items.drop_last();
        lemma_list_from_the_front(t);
        assert(parts.drop_last() =~= t.map_values(|s: Seq<char>| quoted(s)));
        lemma_behind_commas(t, items.last(), 1);
        assert(items =~= t.push(items.last()));
        assert(joined_texts(parts, ", "@) =~= quoted(items[0]) + behind_commas(items, 1));
    }
}

proof fn lemma_commas_apart(a: Seq<Seq<char>>, b: Seq<Seq<char>>, i: int)
    requires
        0 <= i <= a.len(),
        i <= b.len(),
        behind_commas(a, i) + "]"@ == behind_commas(b, i) + "]"@,
        forall|j: int| 0 <= j < i ==> #[trigger] a[j] == b[j],
    ensures
        a == b,
    decreases a.len() - i,
{
    reveal_strlit(", ");
    reveal_strlit("]");
    let p = behind_commas(a, i) + "]"@;
    let q = behind_commas(b, i) + "]"@;
    if i < a.len() {
        assert(p[0] == ',');
    } else {
        assert(p[0] == ']');
    }
    if i < b.len() {
        assert(q[0] == ',');
    } else {
        assert(q[0] == ']');
    }
    if i < a.len() {
        let u = behind_commas(a, i + 1) + "]"@;
        let v = behind_commas(b, i + 1) + "]"@;
        assert(p.skip(2) =~= quoted(a[i]) + u);
        assert(q.skip(2) =~= quoted(b[i]) + v);
        law_quoted_texts_end_where_they_end(a[i], b[i], u, v);
        lemma_commas_apart(a, b, i + 1);
    } else {
        assert(a =~= b);
    }
}

/// Lists that are written in the same way are the same.
pub proof fn law_quoted_lists_are_told_apart(a: Seq<Seq<char>>, b: Seq<Seq<char>>)
    requires
        quoted_list(a) == quoted_list(b),
    ensures
        a == b,
{
    reveal_strlit("[");
    reveal_strlit("]");
    let p = quoted_list(a);
    let q = quoted_list(b);
    if a.len() > 0 {
        lemma_list_from_the_front(a);
        assert(p[1] == '"');
    } else {
        assert(p[1] == ']');
    }
    if b.len() > 0 {
        lemma_list_from_the_front(b);
        assert(q[1] == '"');
    } else {
        assert(q[1] == ']');
    }
    if a.len() > 0 {
        let u = behind_commas(a, 1) + "]"@;
        let v = behind_commas(b, 1) + "]"@;
        assert(p.skip(1) =~= quoted(a[0]) + u);
        assert(q.skip(1) =~= quoted(b[0]) + v);
        law_quoted_texts_end_where_they_end(a[0], b[0], u, v);
        lemma_commas_apart(a, b, 1);
    } else {
        assert(a =~= b);
    }
}

/// Lines that are joined are told apart by the breaks between them.
proof fn lemma_lines_apart(a: Seq<Seq<char>>, b: Seq<Seq<char>>)
    requires
        a.len() > 0,
        b.len() > 0,
        are_field_lines(a),
        are_field_lines(b),
        joined_texts(a, "\n"@) == joined_texts(b, "\n"@),
    ensures
        a == b,
    decreases a.len(),
{
    reveal_strlit("\n");
    let p = joined_texts(a, "\n"@);
    let x = a.last();
    let y = b.last();
    assert(is_field_line(a[a.len() - 1]));
    assert(is_field_line(b[b.len() - 1]));
    if a.len() > 1 {
        let t = joined_texts(a.drop_last(), "\n"@);
        assert(p[t.len() as int] == '\n');
        assert(p.skip(t.len() as int + 1) =~= x);
        assert(p.take(t.len() as int) =~= t);
        assert forall|i: int| t.len() < i < p.len() implies #[trigger] p[i] != '\n' by {
            assert(p[i] == x[i - t.len() - 1]);
        }
    } else {
        assert forall|i: int| 0 <= i < p.len() implies #[trigger] p[i] != '\n' by {
            assert(p[i] == x[i]);
        }
    }
    if b.len() > 1 {
        let u = joined_texts(b.drop_last(), "\n"@);
        assert(p[u.len() as int] == '\n');
        assert(p.skip(u.len() as int + 1) =~= y);
        assert(p.take(u.len() as int) =~= u);
        assert forall|i: int| u.len() < i < p.len() implies #[trigger] p[i] != '\n' by {
            assert(p[i] == y[i - u.len() - 1]);
        }
    } else {
        assert forall|i: int| 0 <= i < p.len() implies #[trigger] p[i] != '\n' by {
            assert(p[i] == y[i]);
        }
    }
    if a.len() > 1 {
        let t = joined_texts(a.drop_last(), "\n"@);
        let u = joined_texts(b.drop_last(), "\n"@);
        assert(p[t.len() as int] == '\n');
        assert(b.len() > 1);
        assert(p[u.len() as int] == '\n');
        assert(t.len() == u.len());
        assert(are_field_lines(a.drop_last())) by {
            assert forall|i: int| 0 <= i < a.len() - 1 implies is_field_line(
                #[trigger] a.drop_last()[i],
            ) by {
                assert(is_field_line(a[i]));
            }
        }
        assert(are_field_lines(b.drop_last())) by {
            assert forall|i: int| 0 <= i < b.len() - 1 implies is_field_line(
                #[trigger] b.drop_last()[i],
            ) by {
                assert(is_field_line(b[i]));
            }
        }
        lemma_lines_apart(a.drop_last(), b.drop_last());
        assert(a =~= a.drop_last().push(x));
        assert(b =~= b.drop_last().push(y));
    } else {
        if b.len() > 1 {
            let u = joined_texts(b.drop_last(), "\n"@);
            assert(p[u.len() as int] == '\n');
        }
        assert(a =~= b);
    }
}

/// Whether the first of some lines starts with a character.
spec fn starts(lines: Seq<Seq<char>>, c: char) -> bool {
    lines.len() > 0 && lines[0].len() > 0 && lines[0][0] == c
}

proof fn lemma_first_apart(
    a: Seq<Seq<char>>,
    b: Seq<Seq<char>>,
    r: Seq<Seq<char>>,
    t: Seq<Seq<char>>,
    c: char,
)
    requires
        a + r == b + t,
        a.len() <= 1,
        b.len() <= 1,
        a.len() == 1 ==> starts(a, c),
        b.len() == 1 ==> starts(b, c),
        !starts(r, c),
        !starts(t, c),
    ensures
        a == b,
        r == t,
{
    let p = a + r;
    let q = b + t;
    if a.len() == 1 {
        assert(p[0] == a[0]);
    } else {
        assert(p =~= r);
    }
    if b.len() == 1 {
        assert(q[0] == b[0]);
    } else {
        assert(q =~= t);
    }
    assert(a.len() == b.len());
    assert(p.skip(a.len() as int) =~= r);
    assert(q.skip(b.len() as int) =~= t);
    assert(a =~= b);
}

proof fn lemma_keyed_apart(key: Seq<char>, x: Seq<char>, y: Seq<char>)
    requires
        key + x == key + y,
    ensures
        x == y,
{
    assert((key + x).skip(key.len() as int) =~= x);
    assert((key + y).skip(key.len() as int) =~= y);
}

proof fn lemma_quoted_keyed_apart(key: Seq<char>, a: Seq<char>, b: Seq<char>)
    requires
        key + quoted(a) == key + quoted(b),
    ensures
        a == b,
{
    lemma_keyed_apart(key, quoted(a), quoted(b));
    law_quoted_texts_end_where_they_end(a, b, Seq::empty(), Seq::empty());
}

proof fn lemma_list_lines_apart(key: Seq<char>, a: Seq<Seq<char>>, b: Seq<Seq<char>>)
    requires
        list_line(key, a) == list_line(key, b),
    ensures
        a == b,
{
    let p = list_line(key, a);
    let q = list_line(key, b);
    if a.len() > 0 {
        assert(p.len() == 1 && q.len() == 1);
        assert(p[0] == key + quoted_list(a));
        assert(q[0] == key + quoted_list(b));
        lemma_keyed_apart(key, quoted_list(a), quoted_list(b));
        law_quoted_lists_are_told_apart(a, b);
    } else {
        assert(p.len() == 0 && q.len() == 0);
        assert(a =~= b);
    }
}

proof fn lemma_list_starts(key: Seq<char>, items: Seq<Seq<char>>)
    requires
        key.len() > 0,
    ensures
        list_line(key, items).len() <= 1,
        list_line(key, items).len() == 1 ==> starts(list_line(key, items), key[0]),
{
}

/// The lines of a decision's frontmatter behind the first five.
spec fn further_lines(d: DecisionView, anchors: Seq<char>) -> Seq<Seq<char>> {
    list_line("cites: "@, d.cites) + (list_line("supersedes: "@, d.supersedes) + (list_line(
        "relates: "@,
        d.relates,
    ) + (anchor_line(d, anchors) + list_line("tags: "@, d.tags))))
}

spec fn anchor_line(d: DecisionView, anchors: Seq<char>) -> Seq<Seq<char>> {
    if d.anchors.len() == 0 {
        Seq::empty()
    } else {
        seq!["anchors: "@ + anchors]
    }
}

proof fn lemma_further_lines_apart(
    a: DecisionView,
    x: Seq<char>,
    b: DecisionView,
    y: Seq<char>,
)
    requires
        further_lines(a, x) == further_lines(b, y),
    ensures
        a.cites == b.cites,
        a.supersedes == b.supersedes,
        a.relates == b.relates,
        a.tags == b.tags,
        a.anchors.len() == 0 <==> b.anchors.len() == 0,
        a.anchors.len() > 0 ==> x == y,
{
    reveal_strlit("cites: ");
    reveal_strlit("supersedes: ");
    reveal_strlit("relates: ");
    reveal_strlit("anchors: ");
    reveal_strlit("tags: ");
    let a1 = list_line("cites: "@, a.cites);
    let a2 = list_line("supersedes: "@, a.supersedes);
    let a3 = list_line("relates: "@, a.relates);
    let a4 = anchor_line(a, x);
    let a5 = list_line("tags: "@, a.tags);
    let b1 = list_line("cites: "@, b.cites);
    let b2 = list_line("supersedes: "@, b.supersedes);
    let b3 = list_line("relates: "@, b.relates);
    let b4 = anchor_line(b, y);
    let b5 = list_line("tags: "@, b.tags);
    lemma_list_starts("cites: "@, a.cites);
    lemma_list_starts("cites: "@, b.cites);
    lemma_list_starts("supersedes: "@, a.supersedes);
    lemma_list_starts("supersedes: "@, b.supersedes);
    lemma_list_starts("relates: "@, a.relates);
    lemma_list_starts("relates: "@, b.relates);
    lemma_list_starts("tags: "@, a.tags);
    lemma_list_starts("tags: "@, b.tags);
    lemma_first_apart(a1, b1, a2 + (a3 + (a4 + a5)), b2 + (b3 + (b4 + b5)), 'c');
    lemma_first_apart(a2, b2, a3 + (a4 + a5), b3 + (b4 + b5), 's');
    lemma_first_apart(a3, b3, a4 + a5, b4 + b5, 'r');
    lemma_first_apart(a4, b4, a5, b5, 'a');
    lemma_list_lines_apart("cites: "@, a.cites, b.cites);
    lemma_list_lines_apart("supersedes: "@, a.supersedes, b.supersedes);
    lemma_list_lines_apart("relates: "@, a.relates, b.relates);
    lemma_list_lines_apart("tags: "@, a.tags, b.tags);
    if a.anchors.len() > 0 {
        assert(a4[0] == "anchors: "@ + x);
        assert(b4.len() == 1);
        assert(b4[0] == "anchors: "@ + y);
        lemma_keyed_apart("anchors: "@, x, y);
    } else {
        assert(b4.len() == 0);
    }
}

/// Decisions that are written in the same way have the same content: every
/// field of a decision is told from the file that is written of it.
pub proof fn law_decisions_are_told_apart(
    a: DecisionView,
    x: Seq<char>,
    b: DecisionView,
    y: Seq<char>,
)
    requires
        is_one_line(x),
        is_one_line(y),
        file_text(decision_lines(a, x), a.body) == file_text(decision_lines(b, y), b.body),
    ensures
        a.id == b.id,
        a.title == b.title,
        a.status == b.status,
        a.date == b.date,
        a.cites == b.cites,
        a.supersedes == b.supersedes,
        a.relates == b.relates,
        a.tags == b.tags,
        a.body == b.body,
        a.anchors.len() == 0 <==> b.anchors.len() == 0,
        a.anchors.len() > 0 ==> x == y,
{
    let p = decision_lines(a, x);
    let q = decision_lines(b, y);
    lemma_decision_lines(a, x);
    lemma_decision_lines(b, y);
    lemma_lines_framed(p);
    lemma_lines_framed(q);
    law_frontmatter_round_trip(joined_texts(p, "\n"@), a.body);
    law_frontmatter_round_trip(joined_texts(q, "\n"@), b.body);
    lemma_lines_apart(p, q);
    lemma_decision_lines_apart(a, x, b, y);
}

proof fn lemma_decision_lines_apart(a: DecisionView, x: Seq<char>, b: DecisionView, y: Seq<char>)
    requires
        decision_lines(a, x) == decision_lines(b, y),
    ensures
        a.id == b.id,
        a.title == b.title,
        a.status == b.status,
        a.date == b.date,
        a.cites == b.cites,
        a.supersedes == b.supersedes,
        a.relates == b.relates,
        a.tags == b.tags,
        a.anchors.len() == 0 <==> b.anchors.len() == 0,
        a.anchors.len() > 0 ==> x == y,
{
    lemma_decision_parts(a, x);
    lemma_decision_parts(b, y);
    lemma_quoted_keyed_apart("id: "@, a.id, b.id);
    lemma_quoted_keyed_apart("title: "@, a.title, b.title);
    lemma_quoted_keyed_apart("date: "@, a.date, b.date);
    lemma_keyed_apart("status: "@, decision_status_view(a.status), decision_status_view(b.status));
    lemma_decision_statuses_apart(a.status, b.status);
    lemma_further_lines_apart(a, x, b, y);
}

proof fn lemma_decision_parts(d: DecisionView, anchors: Seq<char>)
    ensures
        decision_lines(d, anchors)[0] == "id: "@ + quoted(d.id),
        decision_lines(d, anchors)[2] == "title: "@ + quoted(d.title),
        decision_lines(d, anchors)[3] == "status: "@ + decision_status_view(d.status),
        decision_lines(d, anchors)[4] == "date: "@ + quoted(d.date),
        decision_lines(d, anchors).skip(5) == further_lines(d, anchors),
{
    assert(decision_lines(d, anchors).skip(5) =~= further_lines(d, anchors));
}

proof fn lemma_decision_statuses_apart(a: DecisionStatus, b: DecisionStatus)
    requires
        decision_status_view(a) == decision_status_view(b),
    ensures
        a == b,
{
    reveal_strlit("proposed");
    reveal_strlit("accepted");
    reveal_strlit("rejected");
    reveal_strlit("deprecated");
    assert("proposed"@[0] == 'p');
    assert("accepted"@[0] == 'a');
    assert("rejected"@[0] == 'r');
    assert("deprecated"@[0] == 'd');
}

proof fn lemma_force_statuses_apart(a: ForceStatus, b: ForceStatus, x: Seq<char>, y: Seq<char>)
    requires
        status_name(a) + x == status_name(b) + y,
    ensures
        a == b,
        x == y,
{
    reveal_strlit("holds");
    reveal_strlit("changed");
    reveal_strlit("retired");
    assert((status_name(a) + x)[0] == status_name(a)[0]);
    assert((status_name(b) + y)[0] == status_name(b)[0]);
    assert(a == b);
    lemma_keyed_apart(status_name(a), x, y);
}

proof fn lemma_log_lines_apart(a: StatusEntryView, b: StatusEntryView)
    requires
        log_line(a) == log_line(b),
    ensures
        a == b,
{
    let k = "  - { status: "@;
    let m = ", since: "@;
    let e = " }"@;
    assert(log_line(a) =~= k + (status_name(a.status) + (m + (quoted(a.since) + e))));
    assert(log_line(b) =~= k + (status_name(b.status) + (m + (quoted(b.since) + e))));
    lemma_keyed_apart(
        k,
        status_name(a.status) + (m + (quoted(a.since) + e)),
        status_name(b.status) + (m + (quoted(b.since) + e)),
    );
    lemma_force_statuses_apart(
        a.status,
        b.status,
        m + (quoted(a.since) + e),
        m + (quoted(b.since) + e),
    );
    lemma_keyed_apart(m, quoted(a.since) + e, quoted(b.since) + e);
    law_quoted_texts_end_where_they_end(a.since, b.since, e, e);
}

proof fn lemma_log_starts(e: StatusEntryView)
    ensures
        log_line(e).len() > 0,
        log_line(e)[0] == ' ',
{
    reveal_strlit("  - { status: ");
}

proof fn lemma_logs_apart(
    a: Seq<StatusEntryView>,
    b: Seq<StatusEntryView>,
    r: Seq<Seq<char>>,
    t: Seq<Seq<char>>,
)
    requires
        a.map_values(|e: StatusEntryView| log_line(e)) + r == b.map_values(
            |e: StatusEntryView| log_line(e),
        ) + t,
        !starts(r, ' '),
        !starts(t, ' '),
    ensures
        a == b,
        r == t,
{
    let u = a.map_values(|e: StatusEntryView| log_line(e));
    let v = b.map_values(|e: StatusEntryView| log_line(e));
    let p = u + r;
    let q = v + t;
    if a.len() < b.len() {
        let i = a.len() as int;
        lemma_log_starts(b[i]);
        assert(q[i] == v[i]);
        assert(p[i] == r[0]);
    }
    if b.len() < a.len() {
        let i = b.len() as int;
        lemma_log_starts(a[i]);
        assert(p[i] == u[i]);
        assert(q[i] == t[0]);
    }
    assert(p.skip(a.len() as int) =~= r);
    assert(q.skip(a.len() as int) =~= t);
    assert forall|i: int| 0 <= i < a.len() implies a[i] == b[i] by {
        assert(p[i] == u[i]);
        assert(q[i] == v[i]);
        lemma_log_lines_apart(a[i], b[i]);
    }
    assert(a =~= b);
}

spec fn superseding_line(f: ForceView) -> Seq<Seq<char>> {
    match f.superseded_by {
        Some(id) => seq!["supersededBy: "@ + quoted(id)],
        None => Seq::empty(),
    }
}

proof fn lemma_force_parts(f: ForceView)
    ensures
        force_lines(f)[0] == "id: "@ + quoted(f.id),
        force_lines(f)[2] == "title: "@ + quoted(f.title),
        force_lines(f).skip(3) == list_line("dependsOn: "@, f.depends_on) + (seq!["status_log:"@] + (
        f.status_log.map_values(|e: StatusEntryView| log_line(e)) + (superseding_line(f)
            + list_line("tags: "@, f.tags)))),
{
    assert(force_lines(f).skip(3) =~= list_line("dependsOn: "@, f.depends_on) + (seq![
        "status_log:"@,
    ] + (f.status_log.map_values(|e: StatusEntryView| log_line(e)) + (superseding_line(f)
        + list_line("tags: "@, f.tags)))));
}

proof fn lemma_force_lines_apart(a: ForceView, b: ForceView)
    requires
        force_lines(a) == force_lines(b),
    ensures
        a.id == b.id,
        a.title == b.title,
        a.depends_on == b.depends_on,
        a.status_log == b.status_log,
        a.superseded_by == b.superseded_by,
        a.tags == b.tags,
{
    reveal_strlit("dependsOn: ");
    reveal_strlit("status_log:");
    reveal_strlit("supersededBy: ");
    reveal_strlit("tags: ");
    let p = force_lines(a);
    let q = force_lines(b);
    lemma_force_parts(a);
    lemma_force_parts(b);
    lemma_quoted_keyed_apart("id: "@, a.id, b.id);
    lemma_quoted_keyed_apart("title: "@, a.title, b.title);
    let a1 = list_line("dependsOn: "@, a.depends_on);
    let b1 = list_line("dependsOn: "@, b.depends_on);
    let k = seq!["status_log:"@];
    let a2 = a.status_log.map_values(|e: StatusEntryView| log_line(e));
    let b2 = b.status_log.map_values(|e: StatusEntryView| log_line(e));
    let a3 = superseding_line(a);
    let b3 = superseding_line(b);
    let a4 = list_line("tags: "@, a.tags);
    let b4 = list_line("tags: "@, b.tags);
    lemma_list_starts("dependsOn: "@, a.depends_on);
    lemma_list_starts("dependsOn: "@, b.depends_on);
    lemma_list_starts("tags: "@, a.tags);
    lemma_list_starts("tags: "@, b.tags);
    let ra = k + (a2 + (a3 + a4));
    let rb = k + (b2 + (b3 + b4));
    assert(ra[0] == "status_log:"@ && rb[0] == "status_log:"@);
    lemma_first_apart(a1, b1, ra, rb, 'd');
    assert(ra.skip(1) =~= a2 + (a3 + a4));
    assert(rb.skip(1) =~= b2 + (b3 + b4));
    lemma_logs_apart(a.status_log, b.status_log, a3 + a4, b3 + b4);
    lemma_first_apart(a3, b3, a4, b4, 's');
    lemma_list_lines_apart("dependsOn: "@, a.depends_on, b.depends_on);
    lemma_list_lines_apart("tags: "@, a.tags, b.tags);
    if a.superseded_by is Some {
        assert(a3[0] == "supersededBy: "@ + quoted(a.superseded_by->0));
        assert(b3.len() == 1);
        assert(b3[0] == "supersededBy: "@ + quoted(b.superseded_by->0));
        lemma_quoted_keyed_apart("supersededBy: "@, a.superseded_by->0, b.superseded_by->0);
    } else {
        assert(b3.len() == 0);
    }
}

/// Forces that are written in the same way have the same content: every field
/// of a force is told from the file that is written of it.
pub proof fn law_forces_are_told_apart(a: ForceView, b: ForceView)
    requires
        file_text(force_lines(a), a.body) == file_text(force_lines(b), b.body),
    ensures
        a.id == b.id,
        a.title == b.title,
        a.depends_on == b.depends_on,
        a.status_log == b.status_log,
        a.superseded_by == b.superseded_by,
        a.tags == b.tags,
        a.body == b.body,
{
    let p = force_lines(a);
    let q = force_lines(b);
    lemma_force_lines(a);
    lemma_force_lines(b);
    lemma_lines_framed(p);
    lemma_lines_framed(q);
    law_frontmatter_round_trip(joined_texts(p, "\n"@), a.body);
    law_frontmatter_round_trip(joined_texts(q, "\n"@), b.body);
    lemma_lines_apart(p, q);
    lemma_force_lines_apart(a, b);
}

/// A force and a decision are never written in the same way.
pub proof fn law_forces_and_decisions_are_told_apart(a: ForceView, b: DecisionView, x: Seq<char>)
    requires
        is_one_line(x),
    ensures
        file_text(force_lines(a), a.body) != file_text(decision_lines(b, x), b.body),
{
    let p = force_lines(a);
    let q = decision_lines(b, x);
    lemma_force_lines(a);
    lemma_decision_lines(b, x);
    lemma_lines_framed(p);
    lemma_lines_framed(q);
    law_frontmatter_round_trip(joined_texts(p, "\n"@), a.body);
    law_frontmatter_round_trip(joined_texts(q, "\n"@), b.body);
    if joined_texts(p, "\n"@) == joined_texts(q, "\n"@) {
        lemma_lines_apart(p, q);
        reveal_strlit("type: force");
        reveal_strlit("type: decision");
        assert(p[1] == "type: force"@);
        assert(q[1] == "type: decision"@);
        assert("type: force"@.len() == 11 && "type: decision"@.len() == 14);
    }
}

/// The frontmatter of a decision names each of its fields, and has a line for a
/// list exactly where the list has elements.
pub proof fn law_decision_lines_name_the_fields(d: DecisionView, anchors: Seq<char>)
    ensures
        ({
            let lines = decision_lines(d, anchors);
            &&& lines.contains("id: "@ + quoted(d.id))
            &&& lines.contains("type: decision"@)
            &&& lines.contains("title: "@ + quoted(d.title))
            &&& lines.contains("date: "@ + quoted(d.date))
            &&& lines.contains(
                match d.status {
                    DecisionStatus::Proposed => "status: "@ + "proposed"@,
                    DecisionStatus::Accepted => "status: "@ + "accepted"@,
                    DecisionStatus::Rejected => "status: "@ + "rejected"@,
                    DecisionStatus::Deprecated => "status: "@ + "deprecated"@,
                },
            )
            &&& d.cites.len() > 0 ==> lines.contains("cites: "@ + quoted_list(d.cites))
            &&& d.supersedes.len() > 0 ==> lines.contains(
                "supersedes: "@ + quoted_list(d.supersedes),
            )
            &&& d.relates.len() > 0 ==> lines.contains("relates: "@ + quoted_list(d.relates))
            &&& d.anchors.len() > 0 ==> lines.contains("anchors: "@ + anchors)
            &&& d.tags.len() > 0 ==> lines.contains("tags: "@ + quoted_list(d.tags))
            &&& lines.len() == 5 + (if d.cites.len() > 0 {
                1int
            } else {
                0
            }) + (if d.supersedes.len() > 0 {
                1int
            } else {
                0
            }) + (if d.relates.len() > 0 {
                1int
            } else {
                0
            }) + (if d.anchors.len() > 0 {
                1int
            } else {
                0
            }) + (if d.tags.len() > 0 {
                1int
            } else {
                0
            })
        }),
{
    let lines = decision_lines(d, anchors);
    let a1 = list_line("cites: "@, d.cites);
    let a2 = list_line("supersedes: "@, d.supersedes);
    let a3 = list_line("relates: "@, d.relates);
    let a4 = anchor_line(d, anchors);
    let n1 = 5 + a1.len() as int;
    let n2 = n1 + a2.len() as int;
    let n3 = n2 + a3.len() as int;
    let n4 = n3 + a4.len() as int;
    assert(lines[0] == "id: "@ + quoted(d.id));
    assert(lines[1] == "type: decision"@);
    assert(lines[2] == "title: "@ + quoted(d.title));
    assert(lines[3] == "status: "@ + decision_status_view(d.status));
    assert(lines[4] == "date: "@ + quoted(d.date));
    if d.cites.len() > 0 {
        assert(lines[5] == a1[0]);
    }
    if d.supersedes.len() > 0 {
        assert(lines[n1] == a2[0]);
    }
    if d.relates.len() > 0 {
        assert(lines[n2] == a3[0]);
    }
    if d.anchors.len() > 0 {
        assert(lines[n3] == a4[0]);
    }
    if d.tags.len() > 0 {
        assert(lines[n4] == list_line("tags: "@, d.tags)[0]);
    }
}

/// The frontmatter of a force names each of its fields, and has a line for each
/// entry of its log, in their order.
pub proof fn law_force_lines_name_the_fields(f: ForceView)
    ensures
        ({
            let lines = force_lines(f);
            let at = if f.depends_on.len() > 0 {
                5int
            } else {
                4
            };
            let n = f.status_log.len() as int;
            &&& lines.contains("id: "@ + quoted(f.id))
            &&& lines.contains("type: force"@)
            &&& lines.contains("title: "@ + quoted(f.title))
            &&& f.depends_on.len() > 0 ==> lines.contains(
                "dependsOn: "@ + quoted_list(f.depends_on),
            )
            &&& lines[at - 1] == "status_log:"@
            &&& forall|i: int|
                0 <= i < n ==> lines[at + i] == "  - { status: "@ + (match (
                #[trigger] f.status_log[i]).status {
                    ForceStatus::Holds => "holds"@,
                    ForceStatus::Changed => "changed"@,
                    ForceStatus::Retired => "retired"@,
                }) + ", since: "@ + quoted(f.status_log[i].since) + " }"@
            &&& f.superseded_by is Some ==> lines.contains(
                "supersededBy: "@ + quoted(f.superseded_by->0),
            )
            &&& f.tags.len() > 0 ==> lines.contains("tags: "@ + quoted_list(f.tags))
            &&& lines.len() == at + n + (if f.superseded_by is Some {
                1int
            } else {
                0
            }) + (if f.tags.len() > 0 {
                1int
            } else {
                0
            })
        }),
{
    let lines = force_lines(f);
    let a1 = list_line("dependsOn: "@, f.depends_on);
    let log = f.status_log.map_values(|e: StatusEntryView| log_line(e));
    let a3 = superseding_line(f);
    let at = 4 + a1.len() as int;
    let n = f.status_log.len() as int;
    assert(lines[0] == "id: "@ + quoted(f.id));
    assert(lines[1] == "type: force"@);
    assert(lines[2] == "title: "@ + quoted(f.title));
    if f.depends_on.len() > 0 {
        assert(lines[3] == a1[0]);
    }
    assert(lines[at - 1] == "status_log:"@);
    assert forall|i: int| 0 <= i < n implies lines[at + i] == log_line(
        #[trigger] f.status_log[i],
    ) by {
        assert(lines[at + i] == log[i]);
    }
    if f.superseded_by is Some {
        assert(lines[at + n] == a3[0]);
    }
    if f.tags.len() > 0 {
        assert(lines[at + n + a3.len()] == list_line("tags: "@, f.tags)[0]);
    }
}

proof fn lemma_hex_chars(n: int, i: int)
    requires
        0 <= i < 4,
    ensures
        0x30 <= hex4(n)[i] as int <= 0x7a,
{
    assert forall|d: int| 0 <= d < 16 implies 0x30 <= #[trigger] hex_digit(d) as int <= 0x7a by {
        if d < 10 {
            assert(('0' as int + d) as char as int == 48 + d);
        } else {
            assert(('a' as int + (d - 10)) as char as int == 97 + (d - 10));
        }
    }
    let h = hex4(n);
    assert(h[0] == hex_digit(n / 4096 % 16));
    assert(h[1] == hex_digit(n / 256 % 16));
    assert(h[2] == hex_digit(n / 16 % 16));
    assert(h[3] == hex_digit(n % 16));
}

/// Whether a character may stand in YAML as it is: it is no control character,
/// breaks no lines, and is no mark of byte order.
pub open spec fn is_plain(c: char) -> bool {
    let u = c as int;
    (0x20 <= u <= 0x7e) || (0xa1 <= u && u != 0x2028 && u != 0x2029 && u != 0xfeff && u != 0xfffe
        && u != 0xffff)
}

proof fn lemma_escaped_plain(s: Seq<char>)
    ensures
        forall|i: int| 0 <= i < escaped(s).len() ==> is_plain(#[trigger] escaped(s)[i]),
    decreases s.len(),
{
    if s.len() > 0 {
        let t = s.drop_last();
        let c = s.last();
        lemma_escaped_plain(t);
        let e = escape(c);
        assert forall|i: int| 0 <= i < e.len() implies is_plain(#[trigger] e[i]) by {
            if e.len() == 6 && i >= 2 {
                lemma_hex_chars(c as int, i - 2);
                assert(e[i] == hex4(c as int)[i - 2]);
            }
        }
        let all = escaped(s);
        assert forall|i: int| 0 <= i < all.len() implies is_plain(#[trigger] all[i]) by {
            if i < escaped(t).len() {
                assert(all[i] == escaped(t)[i]);
            } else {
                assert(all[i] == e[i - escaped(t).len()]);
            }
        }
    }
}

/// Whatever a text holds, what is written of it in double quotes holds nothing
/// but characters that may stand in YAML as they are.
pub proof fn law_quoted_text_is_plain(s: Seq<char>, i: int)
    requires
        0 <= i < quoted(s).len(),
    ensures
        is_plain(quoted(s)[i]),
{
    lemma_escaped_plain(s);
    let q = quoted(s);
    let n = escaped(s).len() as int;
    if 0 < i < n + 1 {
        assert(q[i] == escaped(s)[i - 1]);
    }
}

/// A text of plain characters without quotes and backslashes is written as it
/// is, between double quotes.
pub proof fn law_plain_text_is_written_as_it_is(s: Seq<char>)
    requires
        forall|i: int|
            0 <= i < s.len() ==> is_plain(#[trigger] s[i]) && s[i] != '"' && s[i] != '\\',
    ensures
        quoted(s) == seq!['"'] + s + seq!['"'],
{
    lemma_plain(s);
}

proof fn lemma_plain(s: Seq<char>)
    requires
        forall|i: int|
            0 <= i < s.len() ==> is_plain(#[trigger] s[i]) && s[i] != '"' && s[i] != '\\',
    ensures
        escaped(s) == s,
    decreases s.len(),
{
    if s.len() > 0 {
        let t = s.drop_last();
        assert forall|i: int| 0 <= i < t.len() implies is_plain(#[trigger] t[i]) && t[i] != '"'
            && t[i] != '\\' by {
            assert(t[i] == s[i]);
        }
        lemma_plain(t);
        assert(is_plain(s[s.len() - 1]));
        assert(s =~= t.push(s.last()));
    }
}

} // verus!
