//! Ids for new records: a prefix, a slug of the title, and a number where the
//! id is taken.
use vstd::prelude::*;
use crate::chars::{
    is_alphanumeric, is_word, law_words_hold_all_letters_and_digits, words, words_of,
};
use crate::graph::{law_lookup, Graph, GraphView};
use crate::text::{
    chars_of, code, holds_text, join3, join_texts, joined_texts, law_joined_texts_come_apart, slice,
    split, text_of, views,
};
use vstd::set_lib::lemma_len_subset;

verus! {

/// How many bytes a character takes in UTF-8.
pub open spec fn width(c: char) -> int {
    let u = c as int;
    if u < 0x80 {
        1
    } else if u < 0x800 {
        2
    } else if u < 0x1_0000 {
        3
    } else {
        4
    }
}

/// How many bytes a text takes in UTF-8.
pub open spec fn byte_len(s: Seq<char>) -> int
    decreases s.len(),
{
    if s.len() == 0 {
        0
    } else {
        byte_len(s.drop_last()) + width(s.last())
    }
}

fn width_of(c: char) -> (r: usize)
    ensures
        r == width(c),
{
    let u: u32 = code(c);
    if u < 0x80 {
        1
    } else if u < 0x800 {
        2
    } else if u < 0x1_0000 {
        3
    } else {
        4
    }
}

/// The most bytes that a slug takes.
pub const SLUG_BYTES: usize = 48;

/// The words of a title, with hyphens between them.
pub open spec fn full_slug(title: Seq<char>) -> Seq<char> {
    joined_texts(words(title), "-"@)
}

/// The longest start of a text that takes no more than `n` bytes.
pub open spec fn cut(s: Seq<char>, n: int) -> Seq<char>
    decreases s.len(),
{
    if s.len() == 0 || byte_len(s) <= n {
        s
    } else {
        cut(s.drop_last(), n)
    }
}

/// A text without the hyphens at its start.
pub open spec fn without_leading(s: Seq<char>) -> Seq<char>
    decreases s.len(),
{
    if s.len() > 0 && s[0] == '-' {
        without_leading(s.drop_first())
    } else {
        s
    }
}

/// A text without the hyphens at its end.
pub open spec fn without_trailing(s: Seq<char>) -> Seq<char>
    decreases s.len(),
{
    if s.len() > 0 && s.last() == '-' {
        without_trailing(s.drop_last())
    } else {
        s
    }
}

/// The slug of a title.
pub open spec fn slug(title: Seq<char>) -> Seq<char> {
    without_trailing(without_leading(cut(full_slug(title), SLUG_BYTES as int)))
}

/// The id that a title asks for.
pub open spec fn base_id(prefix: Seq<char>, title: Seq<char>) -> Seq<char> {
    prefix + "-"@ + slug(title)
}

/// The digit of a number below ten.
pub open spec fn digit(n: nat) -> char {
    ('0' as int + n) as char
}

/// A number in decimal.
pub open spec fn decimal(n: nat) -> Seq<char>
    decreases n,
{
    if n < 10 {
        seq![digit(n)]
    } else {
        decimal(n / 10).push(digit(n % 10))
    }
}

/// The `k`-th id that is tried: the base itself, and then the base with a
/// number from two on.
pub open spec fn numbered(base: Seq<char>, k: nat) -> Seq<char> {
    if k <= 1 {
        base
    } else {
        base + "-"@ + decimal(k)
    }
}

/// Whether an id is taken: by a record of the graph, or by one of a list.
pub open spec fn is_taken(g: GraphView, more: Seq<Seq<char>>, id: Seq<char>) -> bool {
    g.lookup(id) is Some || more.contains(id)
}

/// Whether the `k`-th id that is tried is the first that is free.
pub open spec fn is_first_free(g: GraphView, more: Seq<Seq<char>>, base: Seq<char>, k: nat) -> bool {
    &&& k >= 1
    &&& !is_taken(g, more, numbered(base, k))
    &&& forall|j: nat| 1 <= j < k ==> is_taken(g, more, #[trigger] numbered(base, j))
}

/// The first id that is free.
pub open spec fn free_id(g: GraphView, more: Seq<Seq<char>>, base: Seq<char>) -> Seq<char> {
    numbered(base, choose|k: nat| is_first_free(g, more, base, k))
}

proof fn lemma_free_id(g: GraphView, more: Seq<Seq<char>>, base: Seq<char>, k: nat)
    requires
        is_first_free(g, more, base, k),
    ensures
        free_id(g, more, base) == numbered(base, k),
{
    let c = choose|c: nat| is_first_free(g, more, base, c);
    if c < k {
        assert(is_taken(g, more, numbered(base, c)));
    }
    if k < c {
        assert(is_taken(g, more, numbered(base, k)));
    }
}

proof fn lemma_digit(a: nat, b: nat)
    requires
        a < 10,
        b < 10,
        digit(a) == digit(b),
    ensures
        a == b,
{
}

proof fn lemma_decimal_injective(a: nat, b: nat)
    requires
        decimal(a) == decimal(b),
    ensures
        a == b,
    decreases a + b,
{
    lemma_decimal_nonempty(a);
    lemma_decimal_nonempty(b);
    if a < 10 && b < 10 {
        assert(decimal(a) == seq![digit(a)]);
        assert(decimal(b) == seq![digit(b)]);
        assert(seq![digit(a)][0] == digit(a));
        assert(seq![digit(b)][0] == digit(b));
        lemma_digit(a, b);
    } else if a >= 10 && b >= 10 {
        assert(decimal(a) == decimal(a / 10).push(digit(a % 10)));
        assert(decimal(b) == decimal(b / 10).push(digit(b % 10)));
        assert(decimal(a).last() == digit(a % 10));
        assert(decimal(b).last() == digit(b % 10));
        lemma_digit(a % 10, b % 10);
        assert(decimal(a).drop_last() =~= decimal(a / 10));
        assert(decimal(b).drop_last() =~= decimal(b / 10));
        lemma_decimal_injective(a / 10, b / 10);
    } else if a < 10 {
        lemma_decimal_nonempty(b / 10);
        assert(decimal(b).len() >= 2);
    } else {
        lemma_decimal_nonempty(a / 10);
        assert(decimal(a).len() >= 2);
    }
}

proof fn lemma_decimal_nonempty(n: nat)
    ensures
        decimal(n).len() >= 1,
    decreases n,
{
    if n >= 10 {
        lemma_decimal_nonempty(n / 10);
    }
}

/// The ids that are tried differ.
pub proof fn law_numbered_ids_differ(base: Seq<char>, j: nat, k: nat)
    requires
        1 <= j < k,
    ensures
        numbered(base, j) != numbered(base, k),
{
    let a = numbered(base, j);
    let b = numbered(base, k);
    if a == b {
        lemma_decimal_nonempty(k);
        reveal_strlit("-");
        if j == 1 {
            assert(b.len() > base.len());
        } else {
            let head = base + "-"@;
            assert(a.skip(head.len() as int) =~= decimal(j));
            assert(b.skip(head.len() as int) =~= decimal(k));
            lemma_decimal_injective(j, k);
        }
    }
}

/// The ids that are taken, records first.
spec fn taken_ids(g: GraphView, more: Seq<Seq<char>>) -> Seq<Seq<char>> {
    Seq::new(g.records().len(), |i: int| g.records()[i].id()) + more
}

/// Not all of the ids that are tried can be taken.
proof fn lemma_some_free(g: GraphView, more: Seq<Seq<char>>, base: Seq<char>, n: nat)
    requires
        forall|j: nat| 1 <= j <= n ==> is_taken(g, more, #[trigger] numbered(base, j)),
    ensures
        n <= g.records().len() + more.len(),
{
    let tried = Seq::new(n, |i: int| numbered(base, (i + 1) as nat));
    let all = taken_ids(g, more);
    assert(tried.no_duplicates()) by {
        assert forall|i: int, j: int| 0 <= i < tried.len() && 0 <= j < tried.len() && i
            != j implies tried[i] != tried[j] by {
            if i < j {
                law_numbered_ids_differ(base, (i + 1) as nat, (j + 1) as nat);
            } else {
                law_numbered_ids_differ(base, (j + 1) as nat, (i + 1) as nat);
            }
        }
    }
    assert forall|x: Seq<char>| tried.to_set().contains(x) implies all.to_set().contains(x) by {
        let i = choose|i: int| 0 <= i < tried.len() && tried[i] == x;
        assert(is_taken(g, more, numbered(base, (i + 1) as nat)));
        if more.contains(x) {
            let j = choose|j: int| 0 <= j < more.len() && more[j] == x;
            assert(all[g.records().len() + j] == x);
        } else {
            law_lookup(g, x);
            let r = g.lookup(x)->0;
            let j = choose|j: int| 0 <= j < g.records().len() && g.records()[j] == r;
            assert(all[j] == x);
        }
    }
    assert(tried.to_set().subset_of(all.to_set()));
    tried.unique_seq_to_set();
    all.lemma_cardinality_of_set();
    vstd::seq_lib::seq_to_set_is_finite(all);
    lemma_len_subset(tried.to_set(), all.to_set());
}

fn digit_of(n: u64) -> (r: char)
    requires
        n < 10,
    ensures
        r == digit(n as nat),
{
    match n {
        0 => '0',
        1 => '1',
        2 => '2',
        3 => '3',
        4 => '4',
        5 => '5',
        6 => '6',
        7 => '7',
        8 => '8',
        _ => '9',
    }
}

/// Writes a number down in decimal.
pub fn to_decimal(n: u64) -> (r: String)
    ensures
        r@ == decimal(n as nat),
    decreases n,
{
    if n < 10 {
        let mut out = String::new();
        out.push(digit_of(n));
        assert(out@ =~= seq![digit(n as nat)]);
        out
    } else {
        let mut out = to_decimal(n / 10);
        out.push(digit_of(n % 10));
        out
    }
}

/// A start of a text is cut from it if it is not too long and one character
/// more would be.
proof fn lemma_cut(s: Seq<char>, n: int, k: int)
    requires
        0 <= k <= s.len(),
        byte_len(s.take(k)) <= n,
        k < s.len() ==> byte_len(s.take(k + 1)) > n,
    ensures
        cut(s, n) == s.take(k),
    decreases s.len(),
{
    if k == s.len() {
        assert(s.take(k) =~= s);
    } else {
        lemma_byte_len_grows(s, k + 1);
        let t = s.drop_last();
        assert(t.take(k) =~= s.take(k));
        if k < t.len() {
            assert(t.take(k + 1) =~= s.take(k + 1));
        }
        lemma_cut(t, n, k);
    }
}

proof fn lemma_byte_len_grows(s: Seq<char>, k: int)
    requires
        0 <= k <= s.len(),
    ensures
        byte_len(s.take(k)) <= byte_len(s),
    decreases s.len(),
{
    if k == s.len() {
        assert(s.take(k) =~= s);
    } else {
        assert(s.drop_last().take(k) =~= s.take(k));
        lemma_byte_len_grows(s.drop_last(), k);
    }
}

/// Cuts a text to a number of bytes, before the character that would not fit.
fn cut_bytes(s: &Vec<char>, n: usize) -> (r: Vec<char>)
    ensures
        r@ == cut(s@, n as int),
{
    let mut i: usize = 0;
    let mut left: usize = n;
    assert(s@.take(0) =~= Seq::empty());
    while i < s.len() && width_of(s[i]) <= left
        invariant
            i <= s.len(),
            left == n - byte_len(s@.take(i as int)),
        decreases s.len() - i,
    {
        assert(s@.take(i + 1).drop_last() =~= s@.take(i as int));
        left = left - width_of(s[i]);
        i = i + 1;
    }
    proof {
        if i < s.len() {
            assert(s@.take(i + 1).drop_last() =~= s@.take(i as int));
        }
        lemma_cut(s@, n as int, i as int);
    }
    let out = slice(s, 0, i);
    assert(out@ =~= s@.take(i as int));
    out
}

fn trim_hyphens(s: Vec<char>) -> (r: Vec<char>)
    ensures
        r@ == without_trailing(without_leading(s@)),
{
    let mut i: usize = 0;
    assert(s@.skip(0) =~= s@);
    while i < s.len() && s[i] == '-'
        invariant
            i <= s.len(),
            without_leading(s@) == without_leading(s@.skip(i as int)),
        decreases s.len() - i,
    {
        assert(s@.skip(i as int).drop_first() =~= s@.skip(i + 1));
        i = i + 1;
    }
    let mut t = slice(&s, i, s.len());
    assert(t@ =~= s@.skip(i as int));
    let ghost first = t@;
    while t.len() > 0 && t[t.len() - 1] == '-'
        invariant
            without_trailing(first) == without_trailing(t@),
        decreases t.len(),
    {
        let ghost before = t@;
        let _ = t.pop();
        assert(t@ =~= before.drop_last());
    }
    t
}

/// The slug of a title.
pub fn make_slug(title: &str) -> (r: String)
    ensures
        r@ == slug(title@),
{
    let full = chars_of(join_texts(&words_of(title), "-").as_str());
    text_of(&trim_hyphens(cut_bytes(&full, SLUG_BYTES)))
}

fn is_taken_id(graph: &Graph, more: &Vec<String>, id: &str) -> (r: bool)
    ensures
        r == is_taken(graph@, views(more@), id@),
{
    graph.get(id).is_some() || holds_text(more, id)
}

/// Finds the first id that is free.
pub fn find_free(graph: &Graph, more: &Vec<String>, base: &str) -> (r: String)
    requires
        graph@.forces.len() + graph@.decisions.len() + more.len() < u64::MAX,
    ensures
        r@ == free_id(graph@, views(more@), base@),
        !is_taken(graph@, views(more@), r@),
{
    let ghost g = graph@;
    let ghost ms = views(more@);
    let mut id = base.to_string();
    let mut k: u64 = 1;
    assert(g.records().len() == g.decisions.len() + g.forces.len());
    while is_taken_id(graph, more, id.as_str())
        invariant
            g == graph@,
            ms == views(more@),
            g.records().len() + more.len() < u64::MAX,
            k >= 1,
            id@ == numbered(base@, k as nat),
            forall|j: nat| 1 <= j < k ==> is_taken(g, ms, #[trigger] numbered(base@, j)),
        decreases g.records().len() + more.len() + 1 - k,
    {
        proof {
            assert forall|j: nat| 1 <= j <= k implies is_taken(
                g,
                ms,
                #[trigger] numbered(base@, j),
            ) by {}
            lemma_some_free(g, ms, base@, k as nat);
        }
        k = k + 1;
        id = join3(base, "-", to_decimal(k).as_str());
    }
    proof {
        assert(is_first_free(g, ms, base@, k as nat));
        lemma_free_id(g, ms, base@, k as nat);
    }
    id
}

/// The id of a new record.
pub fn generate_id(graph: &Graph, more: &Vec<String>, prefix: &str, title: &str) -> (r: String)
    requires
        graph@.forces.len() + graph@.decisions.len() + more.len() < u64::MAX,
    ensures
        r@ == free_id(graph@, views(more@), base_id(prefix@, title@)),
        !is_taken(graph@, views(more@), r@),
{
    let base = join3(prefix, "-", make_slug(title).as_str());
    find_free(graph, more, base.as_str())
}

proof fn lemma_drop_first_shorter(s: Seq<char>)
    requires
        s.len() > 0,
    ensures
        byte_len(s.drop_first()) <= byte_len(s),
    decreases s.len(),
{
    let t = s.drop_first();
    if t.len() > 0 {
        lemma_drop_first_shorter(s.drop_last());
        assert(t.drop_last() =~= s.drop_last().drop_first());
        assert(t.last() == s.last());
    } else {
        assert(byte_len(s.drop_last()) == 0);
    }
}

proof fn lemma_without_leading_shorter(s: Seq<char>)
    ensures
        byte_len(without_leading(s)) <= byte_len(s),
    decreases s.len(),
{
    if s.len() > 0 && s[0] == '-' {
        lemma_drop_first_shorter(s);
        lemma_without_leading_shorter(s.drop_first());
    }
}

proof fn lemma_without_trailing_shorter(s: Seq<char>)
    ensures
        byte_len(without_trailing(s)) <= byte_len(s),
    decreases s.len(),
{
    if s.len() > 0 && s.last() == '-' {
        lemma_without_trailing_shorter(s.drop_last());
    }
}

/// A text is cut between characters, and as late as its length allows.
pub proof fn law_cut_is_the_longest(s: Seq<char>, n: int)
    requires
        n >= 0,
    ensures
        byte_len(cut(s, n)) <= n,
        cut(s, n).len() <= s.len(),
        cut(s, n) == s.take(cut(s, n).len() as int),
        forall|k: int|
            0 <= k <= s.len() && byte_len(#[trigger] s.take(k)) <= n ==> k <= cut(s, n).len(),
    decreases s.len(),
{
    assert(s.take(s.len() as int) =~= s);
    if s.len() > 0 && byte_len(s) > n {
        let t = s.drop_last();
        law_cut_is_the_longest(t, n);
        let c = cut(s, n);
        assert(t.take(c.len() as int) =~= s.take(c.len() as int));
        assert forall|k: int| 0 <= k <= s.len() && byte_len(#[trigger] s.take(k)) <= n implies k
            <= c.len() by {
            if k < s.len() {
                assert(t.take(k) =~= s.take(k));
            }
        }
    }
}

/// A slug takes no more bytes than it may, and neither starts nor ends with a
/// hyphen.
pub proof fn law_slug_is_short_and_trimmed(title: Seq<char>)
    ensures
        byte_len(slug(title)) <= SLUG_BYTES,
        slug(title).len() > 0 ==> slug(title)[0] != '-' && slug(title).last() != '-',
{
    let c = cut(full_slug(title), SLUG_BYTES as int);
    let l = without_leading(c);
    law_cut_is_the_longest(full_slug(title), SLUG_BYTES as int);
    lemma_without_leading_shorter(c);
    lemma_without_trailing_shorter(l);
    lemma_leading_trimmed(c);
    lemma_trailing_trimmed(l);
}

proof fn lemma_leading_trimmed(s: Seq<char>)
    ensures
        without_leading(s).len() > 0 ==> without_leading(s)[0] != '-',
    decreases s.len(),
{
    if s.len() > 0 && s[0] == '-' {
        lemma_leading_trimmed(s.drop_first());
    }
}

proof fn lemma_trailing_trimmed(s: Seq<char>)
    ensures
        without_trailing(s).len() > 0 ==> without_trailing(s).last() != '-' && without_trailing(
            s,
        )[0] == s[0],
    decreases s.len(),
{
    if s.len() > 0 && s.last() == '-' {
        lemma_trailing_trimmed(s.drop_last());
    }
}

proof fn lemma_least_free(g: GraphView, more: Seq<Seq<char>>, base: Seq<char>, k: nat)
    requires
        k >= 1,
        !is_taken(g, more, numbered(base, k)),
    ensures
        exists|c: nat| is_first_free(g, more, base, c),
    decreases k,
{
    if exists|j: nat| 1 <= j < k && !is_taken(g, more, #[trigger] numbered(base, j)) {
        let j = choose|j: nat| 1 <= j < k && !is_taken(g, more, #[trigger] numbered(base, j));
        lemma_least_free(g, more, base, j);
    } else {
        assert(is_first_free(g, more, base, k));
    }
}

/// The id of a new record is free: no record has it.
pub proof fn law_new_ids_are_free(g: GraphView, more: Seq<Seq<char>>, base: Seq<char>)
    ensures
        !is_taken(g, more, free_id(g, more, base)),
{
    let n = g.records().len() + more.len() + 1;
    if forall|j: nat| 1 <= j <= n ==> is_taken(g, more, #[trigger] numbered(base, j)) {
        lemma_some_free(g, more, base, n);
    }
    let k = choose|j: nat| 1 <= j <= n && !is_taken(g, more, #[trigger] numbered(base, j));
    lemma_least_free(g, more, base, k);
}

/// The number that decimal digits stand for.
pub open spec fn value_of(digits: Seq<char>) -> int
    decreases digits.len(),
{
    if digits.len() == 0 {
        0
    } else {
        value_of(digits.drop_last()) * 10 + (digits.last() as int - '0' as int)
    }
}

/// A number is written down in decimal digits that stand for it, without a zero
/// in front.
pub proof fn law_decimals_stand_for_their_numbers(n: nat)
    ensures
        value_of(decimal(n)) == n,
        decimal(n).len() > 0,
        forall|i: int|
            0 <= i < decimal(n).len() ==> '0' <= #[trigger] decimal(n)[i] && decimal(n)[i] <= '9',
        n > 0 ==> decimal(n)[0] != '0',
    decreases n,
{
    let s = decimal(n);
    let d = n % 10;
    assert(digit(d) as int == '0' as int + d);
    if n < 10 {
        assert(s =~= seq![digit(n)]);
        assert(s.drop_last() =~= Seq::empty());
        assert(value_of(s.drop_last()) == 0);
    } else {
        law_decimals_stand_for_their_numbers(n / 10);
        let t = decimal(n / 10);
        assert(s == t.push(digit(d)));
        assert(s.drop_last() =~= t);
        assert(n == (n / 10) * 10 + d);
        assert forall|i: int| 0 <= i < s.len() implies '0' <= #[trigger] s[i] && s[i] <= '9' by {
            if i < t.len() {
                assert(s[i] == t[i]);
            }
        }
        assert(s[0] == t[0]);
    }
}

/// The id of a new record is the one that its title asks for where that is free.
/// Otherwise a hyphen and a number stand behind it: two, or the first number
/// above that for which the id is free.
pub proof fn law_new_ids_count_from_two(g: GraphView, more: Seq<Seq<char>>, base: Seq<char>)
    ensures
        ({
            let id = free_id(g, more, base);
            &&& g.lookup(id) is None
            &&& !more.contains(id)
            &&& g.lookup(base) is None && !more.contains(base) ==> id == base
            &&& id != base ==> exists|k: nat|
                {
                    &&& k >= 2
                    &&& id == base + "-"@ + #[trigger] decimal(k)
                    &&& g.lookup(base) is Some || more.contains(base)
                    &&& forall|j: nat|
                        2 <= j < k ==> g.lookup(base + "-"@ + #[trigger] decimal(j)) is Some
                            || more.contains(base + "-"@ + decimal(j))
                }
        }),
{
    law_new_ids_are_free(g, more, base);
    let n = g.records().len() + more.len() + 1;
    if forall|j: nat| 1 <= j <= n ==> is_taken(g, more, #[trigger] numbered(base, j)) {
        lemma_some_free(g, more, base, n);
    }
    let m = choose|j: nat| 1 <= j <= n && !is_taken(g, more, #[trigger] numbered(base, j));
    lemma_least_free(g, more, base, m);
    let k = choose|k: nat| is_first_free(g, more, base, k);
    let id = free_id(g, more, base);
    assert(id == numbered(base, k));
    assert(numbered(base, 1) == base);
    if k >= 2 {
        assert(is_taken(g, more, numbered(base, 1)));
        assert forall|j: nat| 2 <= j < k implies g.lookup(base + "-"@ + #[trigger] decimal(j)) is Some
            || more.contains(base + "-"@ + decimal(j)) by {
            assert(is_taken(g, more, numbered(base, j)));
        }
        assert(id == base + "-"@ + decimal(k));
    }
}

proof fn lemma_joined_words(parts: Seq<Seq<char>>)
    requires
        parts.len() > 0,
        forall|k: int| 0 <= k < parts.len() ==> is_word(#[trigger] parts[k]),
    ensures
        joined_texts(parts, "-"@).len() > 0,
        joined_texts(parts, "-"@)[0] != '-',
        joined_texts(parts, "-"@).last() != '-',
        forall|k: int|
            0 <= k < parts.len() ==> !(#[trigger] parts[k]).contains('-'),
    decreases parts.len(),
{
    reveal_strlit("-");
    assert forall|k: int| 0 <= k < parts.len() implies !(#[trigger] parts[k]).contains('-') by {
        assert(is_word(parts[k]));
        if parts[k].contains('-') {
            let i = choose|i: int| 0 <= i < parts[k].len() && parts[k][i] == '-';
            assert(is_alphanumeric(parts[k][i]));
        }
    }
    let last = parts.last();
    assert(is_word(parts[parts.len() - 1]));
    assert(last[0] == last[0] && is_alphanumeric(last[0]));
    assert(is_alphanumeric(last[last.len() - 1]));
    if parts.len() > 1 {
        let t = parts.drop_last();
        assert forall|k: int| 0 <= k < t.len() implies is_word(#[trigger] t[k]) by {
            assert(is_word(parts[k]));
        }
        lemma_joined_words(t);
    }
}

/// The slug of a title is its words with hyphens between them where those take
/// no more than 48 bytes, and otherwise a start of that, from which nothing but
/// hyphens was taken at the end.
pub proof fn law_slugs_are_words_with_hyphens(title: Seq<char>)
    ensures
        ({
            let full = joined_texts(words(title), "-"@);
            &&& byte_len(full) <= 48 ==> slug(title) == full
            &&& words(title).len() > 0 ==> split(full, '-') == words(title)
            &&& slug(title).len() <= full.len()
            &&& slug(title) == full.take(slug(title).len() as int)
            &&& forall|k: int|
                slug(title).len() < k <= full.len() && byte_len(#[trigger] full.take(k)) <= 48
                    ==> full[k - 1] == '-'
        }),
{
    reveal_strlit("-");
    let full = joined_texts(words(title), "-"@);
    law_words_hold_all_letters_and_digits(title);
    assert("-"@ =~= seq!['-']);
    let c = cut(full, 48);
    law_cut_is_the_longest(full, 48);
    if words(title).len() > 0 {
        lemma_joined_words(words(title));
        law_joined_texts_come_apart(words(title), '-');
        if c.len() > 0 {
            assert(c[0] == full[0]);
        }
    } else {
        assert(full.len() == 0);
    }
    assert(without_leading(c) == c);
    lemma_without_trailing_start(c);
    let t = without_trailing(c);
    assert(t =~= full.take(t.len() as int));
    assert forall|k: int|
        slug(title).len() < k <= full.len() && byte_len(#[trigger] full.take(k)) <= 48 implies full[k
        - 1] == '-' by {
        assert(c[k - 1] == full[k - 1]);
    }
    if byte_len(full) <= 48 {
        assert(c == full);
        if full.len() > 0 {
            assert(full.last() != '-');
        }
    }
}

proof fn lemma_without_trailing_start(s: Seq<char>)
    ensures
        without_trailing(s).len() <= s.len(),
        without_trailing(s) == s.take(without_trailing(s).len() as int),
        forall|k: int| without_trailing(s).len() <= k < s.len() ==> #[trigger] s[k] == '-',
    decreases s.len(),
{
    if s.len() > 0 && s.last() == '-' {
        let t = s.drop_last();
        lemma_without_trailing_start(t);
        let n = without_trailing(t).len() as int;
        assert(t.take(n) =~= s.take(n));
        assert forall|k: int| n <= k < s.len() implies #[trigger] s[k] == '-' by {
            if k < t.len() {
                assert(s[k] == t[k]);
            }
        }
    } else {
        assert(s.take(s.len() as int) =~= s);
    }
}

/// The id that a title asks for is the prefix, a hyphen and the slug.
pub proof fn law_ids_start_with_their_prefix(prefix: Seq<char>, title: Seq<char>)
    ensures
        base_id(prefix, title) == prefix + "-"@ + slug(title),
        base_id(prefix, title).len() == prefix.len() + 1 + slug(title).len(),
{
    reveal_strlit("-");
}

/// A text of ASCII takes as many bytes as it has characters.
pub proof fn law_ascii_takes_a_byte_each(s: Seq<char>)
    requires
        forall|i: int| 0 <= i < s.len() ==> (#[trigger] s[i] as int) < 128,
    ensures
        byte_len(s) == s.len(),
    decreases s.len(),
{
    if s.len() > 0 {
        let t = s.drop_last();
        assert forall|i: int| 0 <= i < t.len() implies (#[trigger] t[i] as int) < 128 by {
            assert(t[i] == s[i]);
        }
        law_ascii_takes_a_byte_each(t);
        assert((s[s.len() - 1] as int) < 128);
    }
}

/// How many bytes a character takes goes by its code point.
pub proof fn law_characters_take_their_bytes(c: char)
    ensures
        (c as int) <= 0x7f ==> width(c) == 1,
        0x80 <= c as int <= 0x7ff ==> width(c) == 2,
        0x800 <= c as int <= 0xffff ==> width(c) == 3,
        0x1_0000 <= c as int ==> width(c) == 4,
{
}

} // verus!
