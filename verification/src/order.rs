//! Orders and the stable sort.
use vstd::prelude::*;
use crate::text::{chars_of, code, same_text, views};

verus! {

/// Whether one text comes before another, or is the same, in the order of
/// their characters' code points.
pub open spec fn text_le(a: Seq<char>, b: Seq<char>) -> bool
    decreases a.len(),
{
    if a.len() == 0 {
        true
    } else if b.len() == 0 {
        false
    } else if a[0] != b[0] {
        (a[0] as int) < (b[0] as int)
    } else {
        text_le(a.drop_first(), b.drop_first())
    }
}

/// Of two texts, one comes before the other.
pub proof fn lemma_text_le_total(a: Seq<char>, b: Seq<char>)
    ensures
        text_le(a, b) || text_le(b, a),
    decreases a.len(),
{
    if a.len() > 0 && b.len() > 0 && a[0] == b[0] {
        lemma_text_le_total(a.drop_first(), b.drop_first());
    }
}

/// Two texts that come before each other are the same text.
pub proof fn lemma_text_le_antisymmetric(a: Seq<char>, b: Seq<char>)
    requires
        text_le(a, b),
        text_le(b, a),
    ensures
        a == b,
    decreases a.len(),
{
    if a.len() > 0 && b.len() > 0 {
        assert(a[0] == b[0]);
        lemma_text_le_antisymmetric(a.drop_first(), b.drop_first());
        assert(a =~= seq![a[0]] + a.drop_first());
        assert(b =~= seq![b[0]] + b.drop_first());
    } else {
        assert(a =~= b);
    }
}

/// The order of texts is transitive.
pub proof fn lemma_text_le_transitive(a: Seq<char>, b: Seq<char>, c: Seq<char>)
    requires
        text_le(a, b),
        text_le(b, c),
    ensures
        text_le(a, c),
    decreases a.len(),
{
    if a.len() > 0 && b.len() > 0 && c.len() > 0 && a[0] == b[0] && b[0] == c[0] {
        lemma_text_le_transitive(a.drop_first(), b.drop_first(), c.drop_first());
    }
}

/// One text comes before another exactly where it is a start of it, or has the
/// smaller character at the first place at which they differ.
pub proof fn law_texts_compare_at_the_first_difference(a: Seq<char>, b: Seq<char>)
    ensures
        text_le(a, b) <==> (a.len() <= b.len() && a == b.take(a.len() as int)) || exists|i: int|
            0 <= i < a.len() && i < b.len() && a.take(i) == b.take(i) && (#[trigger] a[i] as int) < (
            b[i] as int),
    decreases a.len(),
{
    if a.len() == 0 {
        assert(b.take(0) =~= a);
    } else if b.len() > 0 {
        assert(a.take(0) =~= b.take(0));
        if a[0] == b[0] {
            let x = a.drop_first();
            let y = b.drop_first();
            law_texts_compare_at_the_first_difference(x, y);
            if x.len() <= y.len() && x == y.take(x.len() as int) {
                assert(a =~= seq![a[0]] + x);
                assert(b.take(a.len() as int) =~= seq![b[0]] + y.take(x.len() as int));
            }
            if exists|i: int|
                0 <= i < x.len() && i < y.len() && x.take(i) == y.take(i) && (#[trigger] x[i] as int)
                    < (y[i] as int) {
                let i = choose|i: int|
                    0 <= i < x.len() && i < y.len() && x.take(i) == y.take(i) && (#[trigger] x[i] as int)
                        < (y[i] as int);
                assert(a.take(i + 1) =~= seq![a[0]] + x.take(i));
                assert(b.take(i + 1) =~= seq![b[0]] + y.take(i));
                assert(a[i + 1] == x[i] && b[i + 1] == y[i]);
            }
            if a.len() <= b.len() && a == b.take(a.len() as int) {
                assert(x =~= y.take(x.len() as int)) by {
                    assert forall|j: int| 0 <= j < x.len() implies x[j] == y[j] by {
                        assert(a[j + 1] == b.take(a.len() as int)[j + 1]);
                    }
                }
            }
            if exists|i: int|
                0 <= i < a.len() && i < b.len() && a.take(i) == b.take(i) && (#[trigger] a[i] as int)
                    < (b[i] as int) {
                let i = choose|i: int|
                    0 <= i < a.len() && i < b.len() && a.take(i) == b.take(i) && (#[trigger] a[i] as int)
                        < (b[i] as int);
                assert(i > 0);
                assert(x.take(i - 1) =~= y.take(i - 1)) by {
                    assert forall|j: int| 0 <= j < i - 1 implies x[j] == y[j] by {
                        assert(a.take(i)[j + 1] == b.take(i)[j + 1]);
                    }
                }
                assert(x[i - 1] == a[i] && y[i - 1] == b[i]);
            }
        } else {
            if a.len() <= b.len() && a == b.take(a.len() as int) {
                assert(b.take(a.len() as int)[0] == b[0]);
            }
            if exists|i: int|
                0 <= i < a.len() && i < b.len() && a.take(i) == b.take(i) && (#[trigger] a[i] as int)
                    < (b[i] as int) {
                let i = choose|i: int|
                    0 <= i < a.len() && i < b.len() && a.take(i) == b.take(i) && (#[trigger] a[i] as int)
                        < (b[i] as int);
                if i > 0 {
                    assert(a.take(i)[0] == b.take(i)[0]);
                }
            }
        }
    }
}

/// Whether `a` comes before `b`, or is the same text.
pub fn text_not_after(a: &str, b: &str) -> (r: bool)
    ensures
        r == text_le(a@, b@),
{
    let x = chars_of(a);
    let y = chars_of(b);
    let mut i: usize = 0;
    proof {
        assert(x@.skip(0) =~= x@);
        assert(y@.skip(0) =~= y@);
    }
    while i < x.len() && i < y.len()
        invariant
            x@ == a@,
            y@ == b@,
            i <= x.len(),
            i <= y.len(),
            text_le(x@, y@) == text_le(x@.skip(i as int), y@.skip(i as int)),
        decreases x.len() - i,
    {
        proof {
            assert(x@.skip(i as int).drop_first() =~= x@.skip(i + 1));
            assert(y@.skip(i as int).drop_first() =~= y@.skip(i + 1));
        }
        if x[i] != y[i] {
            return code(x[i]) < code(y[i]);
        }
        i = i + 1;
    }
    i == x.len()
}

/// A type whose values are sorted by a total preorder of their views.
pub trait Ordered: View + Sized {
    /// Whether `a` may stand before `b`.
    spec fn le(a: Self::V, b: Self::V) -> bool;

    proof fn le_total(a: Self::V, b: Self::V)
        ensures
            Self::le(a, b) || Self::le(b, a),
    ;

    proof fn le_transitive(a: Self::V, b: Self::V, c: Self::V)
        requires
            Self::le(a, b),
            Self::le(b, c),
        ensures
            Self::le(a, c),
    ;

    fn not_after(&self, other: &Self) -> (r: bool)
        ensures
            r == Self::le(self@, other@),
    ;
}

/// `x` put into a sorted sequence, before the elements that it ties with.
pub open spec fn inserted<T: Ordered>(x: T::V, s: Seq<T::V>) -> Seq<T::V>
    decreases s.len(),
{
    if s.len() == 0 || T::le(x, s[0]) {
        seq![x] + s
    } else {
        seq![s[0]] + inserted::<T>(x, s.drop_first())
    }
}

/// The elements of `s` in order; those that tie keep their places among each other.
pub open spec fn sorted<T: Ordered>(s: Seq<T::V>) -> Seq<T::V>
    decreases s.len(),
{
    if s.len() == 0 {
        s
    } else {
        inserted::<T>(s[0], sorted::<T>(s.drop_first()))
    }
}

/// Whether no element comes before an earlier one.
pub open spec fn in_order<T: Ordered>(s: Seq<T::V>) -> bool {
    forall|i: int, j: int| 0 <= i <= j < s.len() ==> #[trigger] T::le(s[i], #[trigger] s[j])
}

proof fn lemma_inserted_at<T: Ordered>(x: T::V, s: Seq<T::V>, k: int)
    requires
        0 <= k <= s.len(),
        forall|i: int| 0 <= i < k ==> !T::le(x, #[trigger] s[i]),
        k < s.len() ==> T::le(x, s[k]),
    ensures
        inserted::<T>(x, s) == s.insert(k, x),
    decreases k,
{
    if k == 0 {
        assert(seq![x] + s =~= s.insert(0, x));
    } else {
        let t = s.drop_first();
        assert forall|i: int| 0 <= i < k - 1 implies !T::le(x, #[trigger] t[i]) by {
            assert(t[i] == s[i + 1]);
        }
        lemma_inserted_at::<T>(x, t, k - 1);
        assert(seq![s[0]] + t.insert(k - 1, x) =~= s.insert(k, x));
    }
}

/// Sorts a list. The sort is stable.
pub fn sort<T: Ordered>(items: Vec<T>) -> (out: Vec<T>)
    ensures
        views(out@) == sorted::<T>(views(items@)),
{
    let mut items = items;
    let ghost all = views(items@);
    let mut out: Vec<T> = Vec::new();
    proof {
        assert(all.skip(all.len() as int) =~= Seq::empty());
        assert(views(out@) =~= Seq::empty());
    }
    loop
        invariant
            views(items@) == all.take(items.len() as int),
            items.len() <= all.len(),
            views(out@) == sorted::<T>(all.skip(items.len() as int)),
        ensures
            items.len() == 0,
        decreases items.len(),
    {
        let ghost before = items.len() as int;
        match items.pop() {
            None => {
                break;
            },
            Some(x) => {
                let mut k: usize = 0;
                let ghost sofar = views(out@);
                while k < out.len() && !x.not_after(&out[k])
                    invariant
                        k <= out.len(),
                        sofar == views(out@),
                        forall|i: int| 0 <= i < k ==> !T::le(x@, #[trigger] sofar[i]),
                    decreases out.len() - k,
                {
                    k = k + 1;
                }
                proof {
                    let rest = all.skip(before - 1);
                    assert(rest.drop_first() =~= all.skip(before));
                    assert(all.take(before)[before - 1] == x@);
                    assert(rest[0] == x@);
                    lemma_inserted_at::<T>(x@, sofar, k as int);
                    assert(all.take(before).drop_last() =~= all.take(before - 1));
                }
                out.insert(k, x);
                assert(views(out@) =~= sofar.insert(k as int, x@));
                assert(views(items@) =~= all.take(before - 1));
            },
        }
    }
    assert(all.skip(0) =~= all);
    out
}

/// Whether neither of two values comes strictly before the other.
pub open spec fn ties<T: Ordered>(a: T::V, b: T::V) -> bool {
    T::le(a, b) && T::le(b, a)
}

proof fn lemma_inserted_elements<T: Ordered>(x: T::V, s: Seq<T::V>)
    ensures
        inserted::<T>(x, s).to_multiset() == s.to_multiset().insert(x),
        inserted::<T>(x, s).len() == s.len() + 1,
    decreases s.len(),
{
    broadcast use vstd::seq_lib::group_to_multiset_ensures;

    if s.len() == 0 || T::le(x, s[0]) {
        assert(seq![x] + s =~= s.insert(0, x));
    } else {
        let t = s.drop_first();
        lemma_inserted_elements::<T>(x, t);
        let r = inserted::<T>(x, t);
        assert(seq![s[0]] + r =~= r.insert(0, s[0]));
        assert(t =~= s.remove(0));
        assert(s =~= t.insert(0, s[0]));
    }
}

/// Sorting rearranges a sequence: nothing is added and nothing is lost.
pub proof fn law_sorted_rearranges<T: Ordered>(s: Seq<T::V>)
    ensures
        sorted::<T>(s).to_multiset() == s.to_multiset(),
        sorted::<T>(s).len() == s.len(),
    decreases s.len(),
{
    broadcast use vstd::seq_lib::group_to_multiset_ensures;

    if s.len() > 0 {
        let t = s.drop_first();
        law_sorted_rearranges::<T>(t);
        lemma_inserted_elements::<T>(s[0], sorted::<T>(t));
        assert(s =~= t.insert(0, s[0]));
    }
}

/// The elements of a sorted sequence are those of the sequence.
pub proof fn lemma_sorted_contains<T: Ordered>(s: Seq<T::V>, x: T::V)
    ensures
        sorted::<T>(s).contains(x) <==> s.contains(x),
{
    broadcast use vstd::seq_lib::group_to_multiset_ensures;

    law_sorted_rearranges::<T>(s);
    assert(sorted::<T>(s).to_multiset().count(x) == s.to_multiset().count(x));
}

proof fn lemma_inserted_in_order<T: Ordered>(x: T::V, s: Seq<T::V>)
    requires
        in_order::<T>(s),
    ensures
        in_order::<T>(inserted::<T>(x, s)),
    decreases s.len(),
{
    let r = inserted::<T>(x, s);
    if s.len() == 0 || T::le(x, s[0]) {
        assert forall|i: int, j: int| 0 <= i <= j < r.len() implies #[trigger] T::le(
            r[i],
            #[trigger] r[j],
        ) by {
            if i == 0 {
                if j == 0 {
                    T::le_total(x, x);
                } else {
                    assert(T::le(s[0], s[j - 1]));
                    T::le_transitive(x, s[0], s[j - 1]);
                }
            } else {
                assert(T::le(s[i - 1], s[j - 1]));
            }
        }
    } else {
        let t = s.drop_first();
        let q = inserted::<T>(x, t);
        assert forall|i: int, j: int| 0 <= i <= j < t.len() implies #[trigger] T::le(
            t[i],
            #[trigger] t[j],
        ) by {
            assert(T::le(s[i + 1], s[j + 1]));
        }
        lemma_inserted_in_order::<T>(x, t);
        lemma_inserted_elements::<T>(x, t);
        T::le_total(x, s[0]);
        assert forall|i: int, j: int| 0 <= i <= j < r.len() implies #[trigger] T::le(
            r[i],
            #[trigger] r[j],
        ) by {
            if i == 0 {
                if j == 0 {
                    T::le_total(s[0], s[0]);
                } else {
                    broadcast use vstd::seq_lib::group_to_multiset_ensures;

                    assert(q.contains(q[j - 1]));
                    assert(q.to_multiset().count(q[j - 1]) > 0);
                    if q[j - 1] != x {
                        assert(t.contains(q[j - 1]));
                        let k = choose|k: int| 0 <= k < t.len() && t[k] == q[j - 1];
                        assert(T::le(s[0], s[k + 1]));
                    }
                }
            } else {
                assert(T::le(q[i - 1], q[j - 1]));
            }
        }
    }
}

/// A sorted sequence is in order.
pub proof fn law_sorted_in_order<T: Ordered>(s: Seq<T::V>)
    ensures
        in_order::<T>(sorted::<T>(s)),
    decreases s.len(),
{
    if s.len() > 0 {
        law_sorted_in_order::<T>(s.drop_first());
        lemma_inserted_in_order::<T>(s[0], sorted::<T>(s.drop_first()));
    }
}

proof fn lemma_inserted_ties<T: Ordered>(x: T::V, s: Seq<T::V>, y: T::V)
    requires
        in_order::<T>(s),
    ensures
        inserted::<T>(x, s).filter(|z: T::V| ties::<T>(z, y)) == (seq![x] + s).filter(
            |z: T::V| ties::<T>(z, y),
        ),
    decreases s.len(),
{
    let p = |z: T::V| ties::<T>(z, y);
    if s.len() == 0 || T::le(x, s[0]) {
    } else {
        let t = s.drop_first();
        assert forall|i: int, j: int| 0 <= i <= j < t.len() implies #[trigger] T::le(
            t[i],
            #[trigger] t[j],
        ) by {
            assert(T::le(s[i + 1], s[j + 1]));
        }
        lemma_inserted_ties::<T>(x, t, y);
        let q = inserted::<T>(x, t);
        let a = seq![s[0]];
        let b = seq![x];
        Seq::filter_distributes_over_add(a, q, p);
        Seq::filter_distributes_over_add(b, t, p);
        Seq::filter_distributes_over_add(a, t, p);
        Seq::filter_distributes_over_add(b, s, p);
        assert(s =~= a + t);
        reveal_with_fuel(Seq::filter, 2);
        assert(a.drop_last() =~= Seq::empty());
        assert(b.drop_last() =~= Seq::empty());
        if p(s[0]) && p(x) {
            T::le_transitive(x, y, s[0]);
        }
        assert(a.filter(p) + (b.filter(p) + t.filter(p)) =~= b.filter(p) + (a.filter(p)
            + t.filter(p)));
    }
}

/// Sorting is stable: elements that tie keep their places among each other.
pub proof fn law_sorted_stable<T: Ordered>(s: Seq<T::V>, y: T::V)
    ensures
        sorted::<T>(s).filter(|z: T::V| ties::<T>(z, y)) == s.filter(|z: T::V| ties::<T>(z, y)),
    decreases s.len(),
{
    if s.len() > 0 {
        let p = |z: T::V| ties::<T>(z, y);
        let t = s.drop_first();
        law_sorted_stable::<T>(t, y);
        law_sorted_in_order::<T>(t);
        lemma_inserted_ties::<T>(s[0], sorted::<T>(t), y);
        Seq::filter_distributes_over_add(seq![s[0]], sorted::<T>(t), p);
        Seq::filter_distributes_over_add(seq![s[0]], t, p);
        assert(s =~= seq![s[0]] + t);
    }
}

proof fn lemma_in_order_unique<T: Ordered>(a: Seq<T::V>, b: Seq<T::V>)
    requires
        in_order::<T>(a),
        in_order::<T>(b),
        a.to_multiset() == b.to_multiset(),
        forall|x: T::V, y: T::V|
            a.contains(x) && a.contains(y) && #[trigger] ties::<T>(x, y) ==> x == y,
    ensures
        a == b,
    decreases a.len(),
{
    broadcast use vstd::seq_lib::group_to_multiset_ensures;

    assert(a.len() == a.to_multiset().len());
    assert(b.len() == b.to_multiset().len());
    if a.len() > 0 {
        assert(a.contains(a[0]));
        assert(b.contains(b[0]));
        assert(a.to_multiset().count(b[0]) > 0);
        assert(b.to_multiset().count(a[0]) > 0);
        assert(a.contains(b[0]) && b.contains(a[0]));
        let i = choose|i: int| 0 <= i < a.len() && a[i] == b[0];
        let j = choose|j: int| 0 <= j < b.len() && b[j] == a[0];
        assert(T::le(a[0], a[i]));
        assert(T::le(b[0], b[j]));
        assert(ties::<T>(a[0], b[0]));
        let c = a.remove(0);
        let d = b.remove(0);
        assert forall|i: int, j: int| 0 <= i <= j < c.len() implies #[trigger] T::le(
            c[i],
            #[trigger] c[j],
        ) by {
            assert(T::le(a[i + 1], a[j + 1]));
        }
        assert forall|i: int, j: int| 0 <= i <= j < d.len() implies #[trigger] T::le(
            d[i],
            #[trigger] d[j],
        ) by {
            assert(T::le(b[i + 1], b[j + 1]));
        }
        assert forall|x: T::V, y: T::V|
            c.contains(x) && c.contains(y) && #[trigger] ties::<T>(x, y) implies x == y by {
            let k = choose|k: int| 0 <= k < c.len() && c[k] == x;
            assert(a[k + 1] == x);
            let l = choose|l: int| 0 <= l < c.len() && c[l] == y;
            assert(a[l + 1] == y);
        }
        lemma_in_order_unique::<T>(c, d);
        assert(a =~= seq![a[0]] + c);
        assert(b =~= seq![b[0]] + d);
    } else {
        assert(a =~= b);
    }
}

/// Where no two different elements tie, the order in which a sequence is
/// handed to the sort does not matter.
pub proof fn law_sorted_ignores_order<T: Ordered>(s: Seq<T::V>, t: Seq<T::V>)
    requires
        s.to_multiset() == t.to_multiset(),
        forall|x: T::V, y: T::V|
            s.contains(x) && s.contains(y) && #[trigger] ties::<T>(x, y) ==> x == y,
    ensures
        sorted::<T>(s) == sorted::<T>(t),
{
    law_sorted_rearranges::<T>(s);
    law_sorted_rearranges::<T>(t);
    law_sorted_in_order::<T>(s);
    law_sorted_in_order::<T>(t);
    assert forall|x: T::V, y: T::V|
        sorted::<T>(s).contains(x) && sorted::<T>(s).contains(y) && #[trigger] ties::<T>(
            x,
            y,
        ) implies x == y by {
        lemma_sorted_contains::<T>(s, x);
        lemma_sorted_contains::<T>(s, y);
    }
    lemma_in_order_unique::<T>(sorted::<T>(s), sorted::<T>(t));
}

impl Ordered for String {
    open spec fn le(a: Seq<char>, b: Seq<char>) -> bool {
        text_le(a, b)
    }

    proof fn le_total(a: Seq<char>, b: Seq<char>) {
        lemma_text_le_total(a, b);
    }

    proof fn le_transitive(a: Seq<char>, b: Seq<char>, c: Seq<char>) {
        lemma_text_le_transitive(a, b, c);
    }

    fn not_after(&self, other: &Self) -> (r: bool) {
        text_not_after(self.as_str(), other.as_str())
    }
}

/// Whether one list of texts comes before another, or is the same, in the
/// order of their elements.
pub open spec fn texts_le(a: Seq<Seq<char>>, b: Seq<Seq<char>>) -> bool
    decreases a.len(),
{
    if a.len() == 0 {
        true
    } else if b.len() == 0 {
        false
    } else if a[0] != b[0] {
        text_le(a[0], b[0])
    } else {
        texts_le(a.drop_first(), b.drop_first())
    }
}

/// Of two lists of texts, one comes before the other.
pub proof fn lemma_texts_le_total(a: Seq<Seq<char>>, b: Seq<Seq<char>>)
    ensures
        texts_le(a, b) || texts_le(b, a),
    decreases a.len(),
{
    if a.len() > 0 && b.len() > 0 {
        if a[0] == b[0] {
            lemma_texts_le_total(a.drop_first(), b.drop_first());
        } else {
            lemma_text_le_total(a[0], b[0]);
        }
    }
}

/// Two lists of texts that come before each other are the same list.
pub proof fn lemma_texts_le_antisymmetric(a: Seq<Seq<char>>, b: Seq<Seq<char>>)
    requires
        texts_le(a, b),
        texts_le(b, a),
    ensures
        a == b,
    decreases a.len(),
{
    if a.len() > 0 && b.len() > 0 {
        if a[0] != b[0] {
            lemma_text_le_antisymmetric(a[0], b[0]);
        }
        lemma_texts_le_antisymmetric(a.drop_first(), b.drop_first());
        assert(a =~= seq![a[0]] + a.drop_first());
        assert(b =~= seq![b[0]] + b.drop_first());
    } else {
        assert(a =~= b);
    }
}

/// The order of lists of texts is transitive.
pub proof fn lemma_texts_le_transitive(a: Seq<Seq<char>>, b: Seq<Seq<char>>, c: Seq<Seq<char>>)
    requires
        texts_le(a, b),
        texts_le(b, c),
    ensures
        texts_le(a, c),
    decreases a.len(),
{
    if a.len() > 0 && b.len() > 0 && c.len() > 0 {
        if a[0] == b[0] && b[0] == c[0] {
            lemma_texts_le_transitive(a.drop_first(), b.drop_first(), c.drop_first());
        } else if a[0] != b[0] && b[0] != c[0] {
            lemma_text_le_transitive(a[0], b[0], c[0]);
            if a[0] == c[0] {
                lemma_text_le_antisymmetric(a[0], b[0]);
            }
        }
    }
}

/// Whether `a` comes before `b`, or is the same list.
pub fn texts_not_after(a: &Vec<String>, b: &Vec<String>) -> (r: bool)
    ensures
        r == texts_le(views(a@), views(b@)),
{
    let ghost x = views(a@);
    let ghost y = views(b@);
    let mut i: usize = 0;
    proof {
        assert(x.skip(0) =~= x);
        assert(y.skip(0) =~= y);
    }
    while i < a.len() && i < b.len()
        invariant
            x == views(a@),
            y == views(b@),
            i <= a.len(),
            i <= b.len(),
            texts_le(x, y) == texts_le(x.skip(i as int), y.skip(i as int)),
        decreases a.len() - i,
    {
        proof {
            assert(x.skip(i as int).drop_first() =~= x.skip(i + 1));
            assert(y.skip(i as int).drop_first() =~= y.skip(i + 1));
            assert(x[i as int] == a@[i as int]@ && y[i as int] == b@[i as int]@);
        }
        if !same_text(a[i].as_str(), b[i].as_str()) {
            return text_not_after(a[i].as_str(), b[i].as_str());
        }
        i = i + 1;
    }
    i == a.len()
}

/// The elements of a sequence that have a property.
pub open spec fn picked<A>(s: Seq<A>, p: spec_fn(A) -> bool) -> Seq<A>
    decreases s.len(),
{
    if s.len() == 0 {
        s
    } else {
        let rest = picked(s.drop_first(), p);
        if p(s[0]) {
            seq![s[0]] + rest
        } else {
            rest
        }
    }
}

/// What is picked out of two sequences is picked out of each.
pub proof fn lemma_picked_sum<A>(a: Seq<A>, b: Seq<A>, p: spec_fn(A) -> bool)
    ensures
        picked(a + b, p) == picked(a, p) + picked(b, p),
    decreases a.len(),
{
    if a.len() == 0 {
        assert(a + b =~= b);
        assert(picked(a, p) + picked(b, p) =~= picked(b, p));
    } else {
        lemma_picked_sum(a.drop_first(), b, p);
        assert((a + b).drop_first() =~= a.drop_first() + b);
        assert(picked(a + b, p) =~= picked(a, p) + picked(b, p));
    }
}

/// What is picked has the property, and stood there.
pub proof fn lemma_picked_contains<A>(s: Seq<A>, p: spec_fn(A) -> bool, x: A)
    ensures
        picked(s, p).contains(x) <==> s.contains(x) && p(x),
    decreases s.len(),
{
    if s.len() > 0 {
        let t = s.drop_first();
        let rest = picked(t, p);
        lemma_picked_contains(t, p, x);
        assert(s =~= seq![s[0]] + t);
        if s.contains(x) && x != s[0] {
            let i = choose|i: int| 0 <= i < s.len() && s[i] == x;
            assert(t[i - 1] == x);
        }
        if t.contains(x) {
            let i = choose|i: int| 0 <= i < t.len() && t[i] == x;
            assert(s[i + 1] == x);
        }
        if p(s[0]) {
            let all = seq![s[0]] + rest;
            assert(all[0] == s[0]);
            if rest.contains(x) {
                let i = choose|i: int| 0 <= i < rest.len() && rest[i] == x;
                assert(all[i + 1] == x);
            }
            if all.contains(x) && x != s[0] {
                let i = choose|i: int| 0 <= i < all.len() && all[i] == x;
                assert(rest[i - 1] == x);
            }
        }
    }
}

proof fn lemma_picked_inserted<T: Ordered>(x: T::V, s: Seq<T::V>, p: spec_fn(T::V) -> bool)
    requires
        in_order::<T>(s),
    ensures
        picked(inserted::<T>(x, s), p) == if p(x) {
            inserted::<T>(x, picked(s, p))
        } else {
            picked(s, p)
        },
    decreases s.len(),
{
    let some = picked(s, p);
    let all = inserted::<T>(x, s);
    if s.len() == 0 || T::le(x, s[0]) {
        assert(all.drop_first() =~= s);
        if some.len() > 0 {
            lemma_picked_contains(s, p, some[0]);
            assert(some.contains(some[0]));
            let i = choose|i: int| 0 <= i < s.len() && s[i] == some[0];
            assert(T::le(s[0], s[i]));
            T::le_transitive(x, s[0], some[0]);
        }
    } else {
        let t = s.drop_first();
        assert(in_order::<T>(t)) by {
            assert forall|i: int, j: int| 0 <= i <= j < t.len() implies #[trigger] T::le(
                t[i],
                #[trigger] t[j],
            ) by {
                assert(t[i] == s[i + 1] && t[j] == s[j + 1]);
            }
        }
        lemma_picked_inserted::<T>(x, t, p);
        assert(all.drop_first() =~= inserted::<T>(x, t));
        if p(s[0]) {
            assert(some.drop_first() =~= picked(t, p));
        }
    }
}

/// What is picked out of a sorted sequence stands in the order in which what is
/// picked first and sorted then stands.
pub proof fn lemma_picked_sorted<T: Ordered>(s: Seq<T::V>, p: spec_fn(T::V) -> bool)
    ensures
        picked(sorted::<T>(s), p) == sorted::<T>(picked(s, p)),
    decreases s.len(),
{
    if s.len() > 0 {
        let t = s.drop_first();
        lemma_picked_sorted::<T>(t, p);
        law_sorted_in_order::<T>(t);
        lemma_picked_inserted::<T>(s[0], sorted::<T>(t), p);
        if p(s[0]) {
            assert((seq![s[0]] + picked(t, p)).drop_first() =~= picked(t, p));
        }
    }
}

/// Whether two values stand in the same order to all others.
pub open spec fn alike<T: Ordered>(x: T::V, y: T::V) -> bool {
    forall|z: T::V|
        #![trigger T::le(x, z)]
        #![trigger T::le(z, x)]
        #![trigger T::le(y, z)]
        #![trigger T::le(z, y)]
        T::le(x, z) == T::le(y, z) && T::le(z, x) == T::le(z, y)
}

/// The place at which `x` is put into a sorted sequence.
spec fn place<T: Ordered>(x: T::V, s: Seq<T::V>) -> int
    decreases s.len(),
{
    if s.len() == 0 || T::le(x, s[0]) {
        0
    } else {
        1 + place::<T>(x, s.drop_first())
    }
}

proof fn lemma_place<T: Ordered>(x: T::V, s: Seq<T::V>)
    ensures
        0 <= place::<T>(x, s) <= s.len(),
        inserted::<T>(x, s) == s.insert(place::<T>(x, s), x),
    decreases s.len(),
{
    if s.len() == 0 || T::le(x, s[0]) {
        assert(seq![x] + s =~= s.insert(0, x));
    } else {
        let t = s.drop_first();
        lemma_place::<T>(x, t);
        assert(seq![s[0]] + t.insert(place::<T>(x, t), x) =~= s.insert(place::<T>(x, s), x));
    }
}

proof fn lemma_place_alike<T: Ordered>(x: T::V, y: T::V, s: Seq<T::V>)
    requires
        alike::<T>(x, y),
    ensures
        place::<T>(x, s) == place::<T>(y, s),
    decreases s.len(),
{
    if s.len() > 0 {
        lemma_place_alike::<T>(x, y, s.drop_first());
        assert(T::le(x, s[0]) == T::le(y, s[0]));
    }
}

proof fn lemma_place_update<T: Ordered>(x: T::V, s: Seq<T::V>, m: int, y: T::V)
    requires
        0 <= m < s.len(),
        alike::<T>(s[m], y),
    ensures
        place::<T>(x, s.update(m, y)) == place::<T>(x, s),
    decreases s.len(),
{
    let u = s.update(m, y);
    assert(T::le(x, s[m]) == T::le(x, y));
    if m == 0 {
        assert(u.drop_first() =~= s.drop_first());
    } else {
        lemma_place_update::<T>(x, s.drop_first(), m - 1, y);
        assert(u.drop_first() =~= s.drop_first().update(m - 1, y));
    }
}

/// Where one element is changed to one that is alike, the sorted sequence
/// changes in one place. That place is given.
pub proof fn lemma_sorted_update<T: Ordered>(s: Seq<T::V>, m: int, y: T::V) -> (k: int)
    requires
        0 <= m < s.len(),
        alike::<T>(s[m], y),
    ensures
        0 <= k < sorted::<T>(s).len(),
        sorted::<T>(s)[k] == s[m],
        sorted::<T>(s.update(m, y)) == sorted::<T>(s).update(k, y),
    decreases s.len(),
{
    let t = s.drop_first();
    let rest = sorted::<T>(t);
    let u = s.update(m, y);
    let j = place::<T>(s[0], rest);
    lemma_place::<T>(s[0], rest);
    if m == 0 {
        lemma_place_alike::<T>(s[0], y, rest);
        lemma_place::<T>(y, rest);
        assert(u.drop_first() =~= t);
        assert(rest.insert(j, y) =~= rest.insert(j, s[0]).update(j, y));
        j
    } else {
        let i = lemma_sorted_update::<T>(t, m - 1, y);
        assert(u.drop_first() =~= t.update(m - 1, y));
        let other = rest.update(i, y);
        lemma_place_update::<T>(s[0], rest, i, y);
        lemma_place::<T>(s[0], other);
        let k = if j <= i {
            i + 1
        } else {
            i
        };
        assert(other.insert(j, s[0]) =~= rest.insert(j, s[0]).update(k, y));
        k
    }
}

/// An element that occurs once in a sequence stands in one place of it sorted.
pub proof fn lemma_sorted_once<T: Ordered>(s: Seq<T::V>, x: T::V, i: int, j: int)
    requires
        s.to_multiset().count(x) == 1,
        0 <= i < sorted::<T>(s).len(),
        0 <= j < sorted::<T>(s).len(),
        sorted::<T>(s)[i] == x,
        sorted::<T>(s)[j] == x,
    ensures
        i == j,
{
    broadcast use vstd::seq_lib::group_to_multiset_ensures;

    let t = sorted::<T>(s);
    law_sorted_rearranges::<T>(s);
    if i != j {
        let (a, b) = if i < j {
            (i, j)
        } else {
            (j, i)
        };
        let r = t.remove(b);
        assert(r[a] == x);
        assert(r.contains(x));
        assert(r.to_multiset().count(x) > 0);
        assert(r.to_multiset() =~= t.to_multiset().remove(x));
    }
}

/// Lists of texts compare at the first element in which they differ, and a list
/// comes before all that it is the start of.
pub proof fn law_lists_compare_at_the_first_difference(
    a: Seq<Seq<char>>,
    b: Seq<Seq<char>>,
    i: int,
)
    requires
        0 <= i,
        i <= a.len(),
        i <= b.len(),
        forall|j: int| 0 <= j < i ==> #[trigger] a[j] == b[j],
        i < a.len() && i < b.len() ==> a[i] != b[i],
    ensures
        i == a.len() ==> texts_le(a, b),
        i == b.len() && i < a.len() ==> !texts_le(a, b),
        i < a.len() && i < b.len() ==> (texts_le(a, b) <==> text_le(a[i], b[i])),
    decreases i,
{
    if i > 0 {
        let c = a.drop_first();
        let d = b.drop_first();
        assert(a[0] == b[0]);
        assert forall|j: int| 0 <= j < i - 1 implies #[trigger] c[j] == d[j] by {
            assert(a[j + 1] == b[j + 1]);
        }
        if i < a.len() && i < b.len() {
            assert(c[i - 1] == a[i] && d[i - 1] == b[i]);
        }
        law_lists_compare_at_the_first_difference(c, d, i - 1);
    }
}

} // verus!
