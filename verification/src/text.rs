//! Text as sequences of characters.
//!
//! Contracts speak of a string by its view, the sequence of its characters.
//! This module holds the operations on text that the rest of the library is
//! written with.
use vstd::prelude::*;

verus! {

/// `String::push` appends one character.
pub assume_specification[ String::push ](s: &mut String, c: char)
    ensures
        final(s)@ == old(s)@.push(c),
;

/// The views of the elements of a sequence.
pub open spec fn views<T: View>(s: Seq<T>) -> Seq<T::V> {
    s.map_values(|x: T| x@)
}

/// The characters of a string.
pub fn chars_of(s: &str) -> (r: Vec<char>)
    ensures
        r@ == s@,
{
    let mut out: Vec<char> = Vec::new();
    for c in it: s.chars()
        invariant
            out@ == it.seq().take(it.index() as int),
            it.seq() == s@,
    {
        out.push(c);
    }
    out
}

/// The string made of the given characters.
pub fn text_of(v: &Vec<char>) -> (r: String)
    ensures
        r@ == v@,
{
    let mut out = String::new();
    for i in 0..v.len()
        invariant
            out@ == v@.take(i as int),
    {
        out.push(v[i]);
    }
    out
}

/// The code point of a character.
pub fn code(c: char) -> (r: u32)
    ensures
        r as int == c as int,
{
    c as u32
}

/// Whether two strings hold the same text.
pub fn same_text(a: &str, b: &str) -> (r: bool)
    ensures
        r == (a@ == b@),
{
    a.to_string() == b.to_string()
}

/// A copy of a list of strings.
pub fn copy_texts(v: &Vec<String>) -> (r: Vec<String>)
    ensures
        views(r@) == views(v@),
{
    let mut out: Vec<String> = Vec::new();
    for i in 0..v.len()
        invariant
            out.len() == i,
            forall|j: int| 0 <= j < i ==> (#[trigger] out@[j])@ == v@[j]@,
    {
        out.push(v[i].clone());
    }
    assert(views(out@) =~= views(v@));
    out
}

/// Whether a list of strings holds the given text.
pub fn holds_text(v: &Vec<String>, t: &str) -> (r: bool)
    ensures
        r == views(v@).contains(t@),
{
    for i in 0..v.len()
        invariant
            forall|j: int| 0 <= j < i ==> views(v@)[j] != t@,
    {
        if same_text(v[i].as_str(), t) {
            assert(views(v@)[i as int] == t@);
            return true;
        }
    }
    false
}

/// The concatenation of two strings.
pub fn join2(a: &str, b: &str) -> (r: String)
    ensures
        r@ == a@ + b@,
{
    a.to_string().concat(b)
}

/// The concatenation of three strings.
pub fn join3(a: &str, b: &str, c: &str) -> (r: String)
    ensures
        r@ == a@ + b@ + c@,
{
    a.to_string().concat(b).concat(c)
}

/// The parts of `s` between the occurrences of `sep`, empty parts included.
pub open spec fn split(s: Seq<char>, sep: char) -> Seq<Seq<char>>
    decreases s.len(),
{
    if s.len() == 0 {
        seq![s]
    } else {
        let before = split(s.drop_last(), sep);
        if s.last() == sep {
            before.push(Seq::empty())
        } else {
            before.drop_last().push(before.last().push(s.last()))
        }
    }
}

/// A text has at least one part.
pub proof fn lemma_split_nonempty(s: Seq<char>, sep: char)
    ensures
        split(s, sep).len() > 0,
    decreases s.len(),
{
    if s.len() > 0 {
        lemma_split_nonempty(s.drop_last(), sep);
    }
}

/// Splits a text at each occurrence of a character.
pub fn split_at_char(s: &Vec<char>, sep: char) -> (r: Vec<Vec<char>>)
    ensures
        views(r@) == split(s@, sep),
{
    let mut done: Vec<Vec<char>> = Vec::new();
    let mut part: Vec<char> = Vec::new();
    assert(views(done@).push(part@) =~= seq![Seq::<char>::empty()]);
    assert(s@.take(0) =~= Seq::empty());
    for i in 0..s.len()
        invariant
            views(done@).push(part@) == split(s@.take(i as int), sep),
    {
        assert(s@.take(i + 1).drop_last() =~= s@.take(i as int));
        if s[i] == sep {
            let ghost before = views(done@).push(part@);
            done.push(part);
            part = Vec::new();
            assert(views(done@).push(part@) =~= before.push(Seq::empty()));
        } else {
            let ghost before = views(done@).push(part@);
            part.push(s[i]);
            assert(views(done@).push(part@) =~= before.drop_last().push(before.last().push(s[i as int])));
        }
    }
    assert(s@.take(s.len() as int) =~= s@);
    let ghost all = views(done@).push(part@);
    done.push(part);
    assert(views(done@) =~= all);
    done
}

/// Whether `pat` stands in `s` at position `i`.
pub open spec fn stands_at(s: Seq<char>, pat: Seq<char>, i: int) -> bool {
    0 <= i && i + pat.len() <= s.len() && s.subrange(i, i + pat.len()) == pat
}

/// The first position, from `from` on, at which `pat` stands in `s`.
pub open spec fn found_from(s: Seq<char>, pat: Seq<char>, from: int) -> Option<int>
    decreases s.len() + 1 - from,
{
    if from < 0 || from + pat.len() > s.len() {
        None
    } else if stands_at(s, pat, from) {
        Some(from)
    } else {
        found_from(s, pat, from + 1)
    }
}

/// Whether a pattern stands in a text at a position.
pub fn matches_at(s: &Vec<char>, pat: &Vec<char>, i: usize) -> (r: bool)
    ensures
        r == stands_at(s@, pat@, i as int),
{
    if pat.len() > s.len() || i > s.len() - pat.len() {
        return false;
    }
    for k in 0..pat.len()
        invariant
            i + pat.len() <= s.len(),
            forall|j: int| 0 <= j < k ==> s@[i + j] == pat@[j],
    {
        if s[i + k] != pat[k] {
            assert(s@.subrange(i as int, i + pat@.len())[k as int] != pat@[k as int]);
            return false;
        }
    }
    assert(s@.subrange(i as int, i + pat@.len()) =~= pat@);
    true
}

/// Finds the first occurrence of a pattern in a text.
pub fn find(s: &Vec<char>, pat: &Vec<char>) -> (r: Option<usize>)
    ensures
        match r {
            Some(i) => found_from(s@, pat@, 0) == Some(i as int) && stands_at(s@, pat@, i as int),
            None => found_from(s@, pat@, 0) is None,
        },
{
    let mut i: usize = 0;
    while pat.len() <= s.len() && i <= s.len() - pat.len()
        invariant
            i <= s.len(),
            found_from(s@, pat@, 0) == found_from(s@, pat@, i as int),
        decreases s.len() + 1 - i,
    {
        if matches_at(s, pat, i) {
            return Some(i);
        }
        assert(i < s.len()) by {
            if pat@.len() == 0 {
                assert(s@.subrange(i as int, i as int) =~= pat@);
            }
        }
        i = i + 1;
    }
    None
}

/// The characters of `s` from `from` up to `to`.
pub fn slice(s: &Vec<char>, from: usize, to: usize) -> (r: Vec<char>)
    requires
        from <= to <= s.len(),
    ensures
        r@ == s@.subrange(from as int, to as int),
{
    let mut out: Vec<char> = Vec::new();
    for i in from..to
        invariant
            to <= s.len(),
            out@ == s@.subrange(from as int, i as int),
    {
        out.push(s[i]);
        assert(out@ =~= s@.subrange(from as int, i + 1));
    }
    out
}

/// What a sequence holds after an element was put behind it.
pub proof fn lemma_push_contains<A>(s: Seq<A>, x: A)
    ensures
        forall|y: A| #[trigger] s.push(x).contains(y) <==> s.contains(y) || y == x,
{
    assert forall|y: A| #[trigger] s.push(x).contains(y) <==> s.contains(y) || y == x by {
        assert(s.push(x)[s.len() as int] == x);
        if s.contains(y) {
            let k = choose|k: int| 0 <= k < s.len() && s[k] == y;
            assert(s.push(x)[k] == y);
        }
    }
}

/// What the concatenation of two sequences holds.
pub proof fn lemma_sum_contains<A>(s: Seq<A>, t: Seq<A>)
    ensures
        forall|y: A| #[trigger] (s + t).contains(y) <==> s.contains(y) || t.contains(y),
{
    assert forall|y: A| #[trigger] (s + t).contains(y) <==> s.contains(y) || t.contains(y) by {
        if s.contains(y) {
            let k = choose|k: int| 0 <= k < s.len() && s[k] == y;
            assert((s + t)[k] == y);
        }
        if t.contains(y) {
            let k = choose|k: int| 0 <= k < t.len() && t[k] == y;
            assert((s + t)[s.len() + k] == y);
        }
        if (s + t).contains(y) {
            let k = choose|k: int| 0 <= k < (s + t).len() && (s + t)[k] == y;
            if k < s.len() {
                assert(s[k] == y);
            } else {
                assert(t[k - s.len()] == y);
            }
        }
    }
}

/// The texts of a list, with a separator between them.
pub open spec fn joined_texts(parts: Seq<Seq<char>>, sep: Seq<char>) -> Seq<char>
    decreases parts.len(),
{
    if parts.len() == 0 {
        Seq::empty()
    } else if parts.len() == 1 {
        parts[0]
    } else {
        joined_texts(parts.drop_last(), sep) + sep + parts.last()
    }
}

/// Joins the texts of a list.
pub fn join_texts(parts: &Vec<String>, sep: &str) -> (r: String)
    ensures
        r@ == joined_texts(views(parts@), sep@),
{
    let ghost ps = views(parts@);
    let mut out = String::new();
    assert(out@ =~= joined_texts(ps.take(0), sep@));
    for i in 0..parts.len()
        invariant
            ps == views(parts@),
            out@ == joined_texts(ps.take(i as int), sep@),
    {
        proof {
            assert(ps.take(i + 1).drop_last() =~= ps.take(i as int));
            assert(ps.take(i + 1).last() == parts@[i as int]@);
        }
        if i > 0 {
            out = out.concat(sep);
        }
        let ghost before = out@;
        out = out.concat(parts[i].as_str());
        assert(i == 0 ==> out@ =~= parts@[i as int]@);
    }
    assert(ps.take(ps.len() as int) =~= ps);
    out
}

/// What is found is the first place at which the pattern stands.
pub proof fn lemma_found_first(s: Seq<char>, pat: Seq<char>, from: int, p: int)
    requires
        0 <= from <= p,
        stands_at(s, pat, p),
        forall|i: int| from <= i < p ==> !#[trigger] stands_at(s, pat, i),
    ensures
        found_from(s, pat, from) == Some(p),
    decreases p - from,
{
    if from < p {
        assert(!stands_at(s, pat, from));
        lemma_found_first(s, pat, from + 1, p);
    }
}

/// What is found is found in the same place where the text goes on.
pub proof fn lemma_found_in_more(s: Seq<char>, more: Seq<char>, pat: Seq<char>, from: int)
    requires
        found_from(s, pat, from) is Some,
    ensures
        found_from(s + more, pat, from) == found_from(s, pat, from),
        from <= found_from(s, pat, from)->0 <= s.len() - pat.len(),
        stands_at(s, pat, found_from(s, pat, from)->0),
    decreases s.len() + 1 - from,
{
    assert((s + more).subrange(from, from + pat.len()) =~= s.subrange(from, from + pat.len()));
    if !stands_at(s, pat, from) {
        lemma_found_in_more(s, more, pat, from + 1);
    }
}

/// A text that is split and joined again is the same, and no part holds what it
/// was split at.
pub proof fn law_split_texts_join_again(s: Seq<char>, sep: char)
    ensures
        joined_texts(split(s, sep), seq![sep]) == s,
        forall|i: int|
            0 <= i < split(s, sep).len() ==> !(#[trigger] split(s, sep)[i]).contains(sep),
    decreases s.len(),
{
    let mark = seq![sep];
    if s.len() > 0 {
        let t = s.drop_last();
        let c = s.last();
        law_split_texts_join_again(t, sep);
        lemma_split_nonempty(t, sep);
        let a = split(t, sep);
        let b = split(s, sep);
        assert(s =~= t.push(c));
        if c == sep {
            assert(b.drop_last() =~= a);
            assert(joined_texts(b, mark) =~= t.push(c));
            assert forall|i: int| 0 <= i < b.len() implies !(#[trigger] b[i]).contains(sep) by {
                if i < a.len() {
                    assert(b[i] == a[i]);
                }
            }
        } else {
            let last = a.last().push(c);
            assert(b == a.drop_last().push(last));
            if a.len() > 1 {
                assert(b.drop_last() =~= a.drop_last());
                assert(joined_texts(b, mark) =~= joined_texts(a, mark).push(c));
            } else {
                assert(joined_texts(a, mark) == a[0]);
                assert(joined_texts(b, mark) == b[0]);
            }
            lemma_push_contains(a.last(), c);
            assert forall|i: int| 0 <= i < b.len() implies !(#[trigger] b[i]).contains(sep) by {
                if i < a.len() - 1 {
                    assert(b[i] == a[i]);
                } else {
                    assert(!a[a.len() - 1].contains(sep));
                }
            }
        }
    } else {
        assert(split(s, sep)[0].len() == 0);
    }
}

/// A text that goes on without the character that it is split at has the same
/// parts but for the last, which goes on.
pub proof fn lemma_split_goes_on(s: Seq<char>, more: Seq<char>, sep: char)
    requires
        !more.contains(sep),
    ensures
        split(s + more, sep) == split(s, sep).drop_last().push(split(s, sep).last() + more),
    decreases more.len(),
{
    lemma_split_nonempty(s, sep);
    let a = split(s, sep);
    if more.len() == 0 {
        assert(s + more =~= s);
        assert(a.last() + more =~= a.last());
        assert(a =~= a.drop_last().push(a.last()));
    } else {
        let t = more.drop_last();
        assert(!t.contains(sep)) by {
            if t.contains(sep) {
                let i = choose|i: int| 0 <= i < t.len() && t[i] == sep;
                assert(more[i] == sep);
            }
        }
        lemma_split_goes_on(s, t, sep);
        assert((s + more).drop_last() =~= s + t);
        assert((s + more).last() == more.last());
        assert(more.last() != sep) by {
            assert(more[more.len() - 1] == more.last());
        }
        let b = split(s + t, sep);
        assert(b.drop_last() =~= a.drop_last());
        assert(b.last() == a.last() + t);
        assert((a.last() + t).push(more.last()) =~= a.last() + more);
    }
}

/// Texts that are joined come apart again where none of them holds what stands
/// between them.
pub proof fn law_joined_texts_come_apart(parts: Seq<Seq<char>>, sep: char)
    requires
        parts.len() > 0,
        forall|i: int| 0 <= i < parts.len() ==> !(#[trigger] parts[i]).contains(sep),
    ensures
        split(joined_texts(parts, seq![sep]), sep) == parts,
    decreases parts.len(),
{
    let mark = seq![sep];
    let none = Seq::<char>::empty();
    if parts.len() == 1 {
        lemma_split_goes_on(none, parts[0], sep);
        assert(none + parts[0] =~= parts[0]);
        assert(split(none, sep) =~= seq![none]);
        assert(split(parts[0], sep) =~= parts);
    } else {
        let t = parts.drop_last();
        assert forall|i: int| 0 <= i < t.len() implies !(#[trigger] t[i]).contains(sep) by {
            assert(t[i] == parts[i]);
        }
        law_joined_texts_come_apart(t, sep);
        let head = joined_texts(t, mark) + mark;
        assert(head.drop_last() =~= joined_texts(t, mark));
        assert(split(head, sep) == t.push(none));
        assert(!parts[parts.len() - 1].contains(sep));
        lemma_split_goes_on(head, parts.last(), sep);
        assert(t.push(none).drop_last() =~= t);
        assert(none + parts.last() =~= parts.last());
        assert(parts =~= t.push(parts.last()));
    }
}

/// A pattern stands at a place exactly where its characters are those from there
/// on.
pub proof fn law_patterns_stand_letter_by_letter(s: Seq<char>, pat: Seq<char>, i: int)
    requires
        0 <= i,
    ensures
        stands_at(s, pat, i) <==> i + pat.len() <= s.len() && forall|j: int|
            0 <= j < pat.len() ==> s[i + j] == #[trigger] pat[j],
{
    if i + pat.len() <= s.len() {
        let sub = s.subrange(i, i + pat.len());
        if sub == pat {
            assert forall|j: int| 0 <= j < pat.len() implies s[i + j] == #[trigger] pat[j] by {
                assert(sub[j] == s[i + j]);
            }
        }
        if forall|j: int| 0 <= j < pat.len() ==> s[i + j] == #[trigger] pat[j] {
            assert(sub =~= pat);
        }
    }
}

/// What is found is the first place at which a pattern stands, and nothing is
/// found where it stands nowhere.
pub proof fn law_the_first_place_is_found(s: Seq<char>, pat: Seq<char>, from: int)
    requires
        0 <= from,
    ensures
        match found_from(s, pat, from) {
            Some(p) => from <= p && stands_at(s, pat, p) && forall|i: int|
                from <= i < p ==> !#[trigger] stands_at(s, pat, i),
            None => forall|i: int| from <= i ==> !#[trigger] stands_at(s, pat, i),
        },
    decreases s.len() + 1 - from,
{
    if from + pat.len() <= s.len() && !stands_at(s, pat, from) {
        law_the_first_place_is_found(s, pat, from + 1);
    }
}

} // verus!
