//! Classes of characters, lower case and trimming.
use vstd::prelude::*;
use crate::text::{chars_of, code, slice, text_of, views};

verus! {

/// What `char::is_alphanumeric` says of a character outside ASCII.
pub uninterp spec fn unicode_alphanumeric(c: char) -> bool;

/// Calls `char::is_alphanumeric`. Which characters outside ASCII have the
/// Unicode properties it tests is left to the name.
#[verifier::external_body]
fn is_unicode_alphanumeric(c: char) -> (r: bool)
    ensures
        r == unicode_alphanumeric(c),
{
    c.is_alphanumeric()
}

/// What `str::to_lowercase` makes of a text that is not all ASCII.
pub uninterp spec fn unicode_lowercase(s: Seq<char>) -> Seq<char>;

/// Calls `str::to_lowercase`. The Unicode case mapping is left to the name.
#[verifier::external_body]
fn to_unicode_lowercase(s: &str) -> (r: String)
    ensures
        r@ == unicode_lowercase(s@),
{
    s.to_lowercase()
}

/// Whether a character is a letter or a digit.
pub open spec fn is_alphanumeric(c: char) -> bool {
    if (c as int) < 128 {
        '0' <= c <= '9' || 'A' <= c <= 'Z' || 'a' <= c <= 'z'
    } else {
        unicode_alphanumeric(c)
    }
}

/// Whether a character is a letter or a digit.
pub fn alphanumeric(c: char) -> (r: bool)
    ensures
        r == is_alphanumeric(c),
{
    if code(c) < 128 {
        ('0' <= c && c <= '9') || ('A' <= c && c <= 'Z') || ('a' <= c && c <= 'z')
    } else {
        is_unicode_alphanumeric(c)
    }
}

/// An ASCII character in lower case.
pub open spec fn ascii_lower(c: char) -> char {
    if 'A' <= c <= 'Z' {
        (c as int + 32) as char
    } else {
        c
    }
}

/// Whether a text is all ASCII.
pub open spec fn all_ascii(s: Seq<char>) -> bool {
    forall|i: int| 0 <= i < s.len() ==> (#[trigger] s[i] as int) < 128
}

/// A text in lower case.
pub open spec fn lowercase(s: Seq<char>) -> Seq<char> {
    if all_ascii(s) {
        s.map_values(|c: char| ascii_lower(c))
    } else {
        unicode_lowercase(s)
    }
}

fn lower_letter(c: char) -> (r: char)
    ensures
        r == ascii_lower(c),
{
    match c {
        'A' => 'a',
        'B' => 'b',
        'C' => 'c',
        'D' => 'd',
        'E' => 'e',
        'F' => 'f',
        'G' => 'g',
        'H' => 'h',
        'I' => 'i',
        'J' => 'j',
        'K' => 'k',
        'L' => 'l',
        'M' => 'm',
        'N' => 'n',
        'O' => 'o',
        'P' => 'p',
        'Q' => 'q',
        'R' => 'r',
        'S' => 's',
        'T' => 't',
        'U' => 'u',
        'V' => 'v',
        'W' => 'w',
        'X' => 'x',
        'Y' => 'y',
        'Z' => 'z',
        _ => c,
    }
}

/// Puts a text in lower case.
pub fn to_lower(s: &str) -> (r: String)
    ensures
        r@ == lowercase(s@),
{
    let chars = chars_of(s);
    let mut out: Vec<char> = Vec::new();
    for i in 0..chars.len()
        invariant
            chars@ == s@,
            out.len() == i,
            forall|j: int| 0 <= j < i ==> (#[trigger] chars@[j] as int) < 128,
            forall|j: int| 0 <= j < i ==> #[trigger] out@[j] == ascii_lower(chars@[j]),
    {
        if code(chars[i]) >= 128 {
            assert(!all_ascii(s@)) by {
                assert(s@[i as int] as int >= 128);
            }
            return to_unicode_lowercase(s);
        }
        out.push(lower_letter(chars[i]));
    }
    assert(out@ =~= s@.map_values(|c: char| ascii_lower(c)));
    text_of(&out)
}

/// Whether a character is white space: the Unicode property `White_Space`.
pub open spec fn is_space(c: char) -> bool {
    let u = c as int;
    9 <= u <= 13 || u == 32 || u == 133 || u == 160 || u == 5760 || 8192 <= u <= 8202 || u == 8232
        || u == 8233 || u == 8239 || u == 8287 || u == 12288
}

fn space(c: char) -> (r: bool)
    ensures
        r == is_space(c),
{
    let u: u32 = code(c);
    (9 <= u && u <= 13) || u == 32 || u == 133 || u == 160 || u == 5760 || (8192 <= u && u <= 8202)
        || u == 8232 || u == 8233 || u == 8239 || u == 8287 || u == 12288
}

/// A text without the white space that it starts with.
pub open spec fn trimmed_start(s: Seq<char>) -> Seq<char>
    decreases s.len(),
{
    if s.len() > 0 && is_space(s[0]) {
        trimmed_start(s.drop_first())
    } else {
        s
    }
}

/// A text without the white space that it ends with.
pub open spec fn trimmed_end(s: Seq<char>) -> Seq<char>
    decreases s.len(),
{
    if s.len() > 0 && is_space(s.last()) {
        trimmed_end(s.drop_last())
    } else {
        s
    }
}

/// A text without the white space at its ends.
pub open spec fn trimmed(s: Seq<char>) -> Seq<char> {
    trimmed_end(trimmed_start(s))
}

/// Where a text starts once leading white space is left out.
fn text_start(s: &Vec<char>) -> (r: usize)
    ensures
        r <= s.len(),
        trimmed_start(s@) == s@.skip(r as int),
{
    let mut i: usize = 0;
    assert(s@.skip(0) =~= s@);
    while i < s.len() && space(s[i])
        invariant
            i <= s.len(),
            trimmed_start(s@) == trimmed_start(s@.skip(i as int)),
        decreases s.len() - i,
    {
        assert(s@.skip(i as int).drop_first() =~= s@.skip(i + 1));
        i = i + 1;
    }
    i
}

/// Takes the leading white space off a text.
pub fn trim_start(s: &Vec<char>) -> (r: Vec<char>)
    ensures
        r@ == trimmed_start(s@),
{
    let from = text_start(s);
    let r = slice(s, from, s.len());
    assert(r@ =~= s@.skip(from as int));
    r
}

/// Takes the white space off both ends of a text.
pub fn trim(s: &Vec<char>) -> (r: Vec<char>)
    ensures
        r@ == trimmed(s@),
{
    let mut t = trim_start(s);
    let ghost first = t@;
    while t.len() > 0 && space(t[t.len() - 1])
        invariant
            trimmed_end(first) == trimmed_end(t@),
        decreases t.len(),
    {
        let ghost before = t@;
        let _ = t.pop();
        assert(t@ =~= before.drop_last());
    }
    t
}

/// The parts of a text between the characters that are no letters or digits,
/// empty parts included.
pub open spec fn runs(s: Seq<char>) -> Seq<Seq<char>>
    decreases s.len(),
{
    if s.len() == 0 {
        seq![s]
    } else {
        let before = runs(s.drop_last());
        if is_alphanumeric(s.last()) {
            before.drop_last().push(before.last().push(s.last()))
        } else {
            before.push(Seq::empty())
        }
    }
}

/// The parts that are not empty.
pub open spec fn nonempty(parts: Seq<Seq<char>>) -> Seq<Seq<char>>
    decreases parts.len(),
{
    if parts.len() == 0 {
        Seq::empty()
    } else {
        let before = nonempty(parts.drop_last());
        if parts.last().len() == 0 {
            before
        } else {
            before.push(parts.last())
        }
    }
}

/// The words of a text, in lower case: its longest runs of letters and digits.
pub open spec fn words(s: Seq<char>) -> Seq<Seq<char>> {
    nonempty(runs(lowercase(s)))
}

/// Takes a text apart into its words.
pub fn words_of(s: &str) -> (r: Vec<String>)
    ensures
        views(r@) == words(s@),
{
    let lower = chars_of(to_lower(s).as_str());
    let mut done: Vec<String> = Vec::new();
    let mut part: Vec<char> = Vec::new();
    let ghost mut before: Seq<Seq<char>> = Seq::empty();
    proof {
        assert(lower@.take(0) =~= Seq::empty());
        assert(before.push(part@) =~= seq![Seq::<char>::empty()]);
        assert(views(done@) =~= nonempty(before));
    }
    for i in 0..lower.len()
        invariant
            before.push(part@) == runs(lower@.take(i as int)),
            views(done@) == nonempty(before),
    {
        let ghost all = before.push(part@);
        assert(lower@.take(i + 1).drop_last() =~= lower@.take(i as int));
        if alphanumeric(lower[i]) {
            part.push(lower[i]);
            assert(before.push(part@) =~= all.drop_last().push(all.last().push(lower@[i as int])));
        } else {
            let ghost sofar = views(done@);
            assert(all.drop_last() =~= before);
            if part.len() > 0 {
                done.push(text_of(&part));
                assert(views(done@) =~= sofar.push(part@));
            }
            part = Vec::new();
            proof {
                before = all;
            }
        }
    }
    assert(lower@.take(lower.len() as int) =~= lower@);
    assert(before.push(part@).drop_last() =~= before);
    if part.len() > 0 {
        let ghost sofar = views(done@);
        done.push(text_of(&part));
        assert(views(done@) =~= sofar.push(part@));
    }
    done
}

proof fn lemma_trimmed_start(s: Seq<char>) -> (a: int)
    ensures
        0 <= a <= s.len(),
        trimmed_start(s) == s.skip(a),
        forall|i: int| 0 <= i < a ==> is_space(#[trigger] s[i]),
        a < s.len() ==> !is_space(s[a]),
    decreases s.len(),
{
    if s.len() > 0 && is_space(s[0]) {
        let t = s.drop_first();
        let a = lemma_trimmed_start(t);
        assert(t.skip(a) =~= s.skip(a + 1));
        assert forall|i: int| 0 <= i < a + 1 implies is_space(#[trigger] s[i]) by {
            if i > 0 {
                assert(s[i] == t[i - 1]);
            }
        }
        if a < t.len() {
            assert(t[a] == s[a + 1]);
        }
        a + 1
    } else {
        assert(s.skip(0) =~= s);
        0
    }
}

proof fn lemma_trimmed_end(s: Seq<char>) -> (b: int)
    ensures
        0 <= b <= s.len(),
        trimmed_end(s) == s.take(b),
        forall|i: int| b <= i < s.len() ==> is_space(#[trigger] s[i]),
        b > 0 ==> !is_space(s[b - 1]),
    decreases s.len(),
{
    if s.len() > 0 && is_space(s.last()) {
        let t = s.drop_last();
        let b = lemma_trimmed_end(t);
        assert(t.take(b) =~= s.take(b));
        assert forall|i: int| b <= i < s.len() implies is_space(#[trigger] s[i]) by {
            if i < t.len() {
                assert(s[i] == t[i]);
            }
        }
        b
    } else {
        assert(s.take(s.len() as int) =~= s);
        s.len() as int
    }
}

/// A text that is trimmed loses white space at its ends, all of it, and nothing
/// else.
pub proof fn law_trimming_takes_white_space_off_the_ends(s: Seq<char>)
    ensures
        exists|a: int, b: int|
            #![trigger s.subrange(a, b)]
            {
                &&& 0 <= a <= b <= s.len()
                &&& trimmed(s) == s.subrange(a, b)
                &&& forall|i: int| 0 <= i < a || b <= i < s.len() ==> is_space(#[trigger] s[i])
                &&& a < b ==> !is_space(s[a]) && !is_space(s[b - 1])
            },
{
    let a = lemma_trimmed_start(s);
    let t = s.skip(a);
    let b = lemma_trimmed_end(t);
    assert(t.take(b) =~= s.subrange(a, a + b));
    assert forall|i: int| 0 <= i < a || a + b <= i < s.len() implies is_space(#[trigger] s[i]) by {
        if i >= a {
            assert(s[i] == t[i - a]);
        }
    }
    if b > 0 {
        assert(t[b - 1] == s[a + b - 1]);
        if a == s.len() {
            assert(t.len() == 0);
        }
    }
}

/// A text of ASCII is put in lower case letter by letter.
pub proof fn law_ascii_texts_are_put_in_lower_case(s: Seq<char>, i: int)
    requires
        forall|j: int| 0 <= j < s.len() ==> (#[trigger] s[j] as int) < 128,
        0 <= i < s.len(),
    ensures
        lowercase(s).len() == s.len(),
        'A' <= s[i] && s[i] <= 'Z' ==> lowercase(s)[i] as int == s[i] as int + ('a' as int
            - 'A' as int),
        !('A' <= s[i] && s[i] <= 'Z') ==> lowercase(s)[i] == s[i],
{
}

/// Whether a word of a text starts at a place: a letter or a digit stands there,
/// and none before it.
pub open spec fn starts_word(s: Seq<char>, i: int) -> bool {
    is_alphanumeric(s[i]) && (i == 0 || !is_alphanumeric(s[i - 1]))
}

/// How many words start among the first `n` characters of a text.
pub open spec fn word_starts(s: Seq<char>, n: int) -> int
    decreases n,
{
    if n <= 0 {
        0
    } else if starts_word(s, n - 1) {
        word_starts(s, n - 1) + 1
    } else {
        word_starts(s, n - 1)
    }
}

/// The letters and digits of the first `n` characters of a text.
pub open spec fn letters(s: Seq<char>, n: int) -> Seq<char>
    decreases n,
{
    if n <= 0 {
        Seq::empty()
    } else if is_alphanumeric(s[n - 1]) {
        letters(s, n - 1).push(s[n - 1])
    } else {
        letters(s, n - 1)
    }
}

/// Texts one behind the other.
pub open spec fn in_a_row(parts: Seq<Seq<char>>) -> Seq<char>
    decreases parts.len(),
{
    if parts.len() == 0 {
        Seq::empty()
    } else {
        in_a_row(parts.drop_last()) + parts.last()
    }
}

/// Whether a text has letters and digits, and nothing else.
pub open spec fn is_word(w: Seq<char>) -> bool {
    w.len() > 0 && forall|i: int| 0 <= i < w.len() ==> is_alphanumeric(#[trigger] w[i])
}

proof fn lemma_letters_of_start(s: Seq<char>, t: Seq<char>, n: int)
    requires
        0 <= n <= s.len(),
        n <= t.len(),
        forall|i: int| 0 <= i < n ==> #[trigger] s[i] == t[i],
    ensures
        letters(s, n) == letters(t, n),
        word_starts(s, n) == word_starts(t, n),
    decreases n,
{
    if n > 0 {
        lemma_letters_of_start(s, t, n - 1);
        assert(s[n - 1] == t[n - 1]);
        if n > 1 {
            assert(s[n - 2] == t[n - 2]);
        }
    }
}

proof fn lemma_runs(s: Seq<char>)
    ensures
        runs(s).len() > 0,
        in_a_row(runs(s)) == letters(s, s.len() as int),
        nonempty(runs(s)).len() == word_starts(s, s.len() as int),
        runs(s).last().len() == 0 <==> s.len() == 0 || !is_alphanumeric(s.last()),
        forall|k: int|
            0 <= k < runs(s).len() ==> {
                let w = #[trigger] runs(s)[k];
                w.len() > 0 ==> is_word(w)
            },
    decreases s.len(),
{
    let n = s.len() as int;
    if n == 0 {
        let none = Seq::<Seq<char>>::empty();
        assert(runs(s).drop_last() =~= none);
        assert(nonempty(none) =~= none);
        assert(in_a_row(none) =~= Seq::empty());
        assert(in_a_row(runs(s)) =~= Seq::empty());
    } else {
        let t = s.drop_last();
        lemma_runs(t);
        lemma_letters_of_start(t, s, n - 1);
        let a = runs(t);
        let b = runs(s);
        if is_alphanumeric(s.last()) {
            let w = a.last().push(s.last());
            assert(b == a.drop_last().push(w));
            assert(b.drop_last() =~= a.drop_last());
            assert(in_a_row(b) =~= in_a_row(a).push(s.last()));
            assert(is_word(w)) by {
                assert forall|i: int| 0 <= i < w.len() implies is_alphanumeric(#[trigger] w[i]) by {
                    if i < a.last().len() {
                        assert(w[i] == a.last()[i]);
                        assert(a[a.len() - 1] == a.last());
                        assert(is_word(a[a.len() - 1]));
                    }
                }
            }
            assert forall|k: int| 0 <= k < b.len() implies {
                let w = #[trigger] b[k];
                w.len() > 0 ==> is_word(w)
            } by {
                if k < a.len() - 1 {
                    assert(b[k] == a[k]);
                }
            }
            if n > 1 {
                assert(t.last() == s[n - 2]);
            }
        } else {
            assert(b == a.push(Seq::empty()));
            assert(b.drop_last() =~= a);
            assert(in_a_row(b) =~= in_a_row(a));
            assert forall|k: int| 0 <= k < b.len() implies {
                let w = #[trigger] b[k];
                w.len() > 0 ==> is_word(w)
            } by {
                if k < a.len() {
                    assert(b[k] == a[k]);
                }
            }
        }
    }
}

proof fn lemma_nonempty(parts: Seq<Seq<char>>)
    requires
        forall|k: int|
            0 <= k < parts.len() ==> {
                let w = #[trigger] parts[k];
                w.len() > 0 ==> is_word(w)
            },
    ensures
        in_a_row(nonempty(parts)) == in_a_row(parts),
        forall|k: int| 0 <= k < nonempty(parts).len() ==> is_word(#[trigger] nonempty(parts)[k]),
    decreases parts.len(),
{
    if parts.len() > 0 {
        let t = parts.drop_last();
        assert forall|k: int| 0 <= k < t.len() implies {
            let w = #[trigger] t[k];
            w.len() > 0 ==> is_word(w)
        } by {
            assert(t[k] == parts[k]);
        }
        lemma_nonempty(t);
        let last = parts.last();
        assert(parts[parts.len() - 1] == last);
        let a = nonempty(t);
        if last.len() > 0 {
            assert(a.push(last).drop_last() =~= a);
            assert forall|k: int| 0 <= k < a.push(last).len() implies is_word(
                #[trigger] a.push(last)[k],
            ) by {
                if k < a.len() {
                    assert(a.push(last)[k] == a[k]);
                }
            }
        } else {
            assert(in_a_row(t) + last =~= in_a_row(t));
        }
    }
}

/// The words of a text are its letters and digits in lower case, all of them in
/// their order, with a new word wherever something else stood before one.
pub proof fn law_words_hold_all_letters_and_digits(s: Seq<char>)
    ensures
        ({
            let t = lowercase(s);
            &&& in_a_row(words(s)) == letters(t, t.len() as int)
            &&& words(s).len() == word_starts(t, t.len() as int)
            &&& forall|k: int| 0 <= k < words(s).len() ==> is_word(#[trigger] words(s)[k])
        }),
{
    let t = lowercase(s);
    lemma_runs(t);
    lemma_nonempty(runs(t));
}

/// The white space of Unicode: tab to carriage return, the space, the next line,
/// the spaces of fixed width, the separators of lines and paragraphs, and the
/// few others.
pub proof fn law_white_space_is_that_of_unicode(c: char)
    ensures
        c == ' ' || c == '\t' || c == '\n' || c == '\r' || c as int == 0x0b || c as int == 0x0c
            ==> is_space(c),
        c as int == 0x85 || c as int == 0xa0 || c as int == 0x1680 || c as int == 0x2028 || c as int
            == 0x2029 || c as int == 0x202f || c as int == 0x205f || c as int == 0x3000
            ==> is_space(c),
        0x2000 <= c as int <= 0x200a ==> is_space(c),
        is_alphanumeric(c) && (c as int) < 128 ==> !is_space(c),
        0x21 <= c as int <= 0x84 ==> !is_space(c),
        0xa1 <= c as int <= 0x167f ==> !is_space(c),
        c as int > 0x3000 ==> !is_space(c),
{
}

/// Of the characters of ASCII, the letters and the digits are alphanumeric, and
/// no others.
pub proof fn law_ascii_letters_and_digits(c: char)
    requires
        (c as int) < 128,
    ensures
        is_alphanumeric(c) <==> (48 <= c as int <= 57) || (65 <= c as int <= 90) || (97 <= c as int
            <= 122),
{
}

} // verus!
