//! Preparing texts and tokens for an E5 model.
use vstd::prelude::*;
use crate::text::{join2, views};

verus! {

/// How many texts a model is given at once.
pub const BATCH: usize = 16;

/// The texts from `from` on, in batches.
pub open spec fn batched(texts: Seq<Seq<char>>, from: int) -> Seq<Seq<Seq<char>>>
    decreases texts.len() - from,
{
    if from < 0 || from >= texts.len() {
        Seq::empty()
    } else if from + BATCH >= texts.len() {
        seq![texts.skip(from)]
    } else {
        seq![texts.subrange(from, from + BATCH)] + batched(texts, from + BATCH)
    }
}

/// Texts with a prefix each.
pub open spec fn with_prefix(texts: Seq<Seq<char>>, prefix: Seq<char>) -> Seq<Seq<char>> {
    texts.map_values(|t: Seq<char>| prefix + t)
}

/// The views of lists of texts.
pub open spec fn batch_views(batches: Seq<Vec<String>>) -> Seq<Seq<Seq<char>>> {
    batches.map_values(|b: Vec<String>| views(b@))
}

/// Puts a prefix before each text, and divides the texts into batches.
pub fn prepare_batches(texts: &Vec<String>, prefix: &str) -> (r: Vec<Vec<String>>)
    ensures
        batch_views(r@) == batched(with_prefix(views(texts@), prefix@), 0),
{
    let ghost all = with_prefix(views(texts@), prefix@);
    let mut out: Vec<Vec<String>> = Vec::new();
    let mut from: usize = 0;
    assert(batch_views(out@) + batched(all, 0) =~= batched(all, 0));
    while from < texts.len()
        invariant
            all == with_prefix(views(texts@), prefix@),
            from <= texts.len(),
            batch_views(out@) + batched(all, from as int) == batched(all, 0),
        decreases texts.len() - from,
    {
        let ghost before = batch_views(out@);
        let to: usize = if texts.len() - from <= BATCH {
            texts.len()
        } else {
            from + BATCH
        };
        let mut batch: Vec<String> = Vec::new();
        for i in from..to
            invariant
                all == with_prefix(views(texts@), prefix@),
                from <= to <= texts.len(),
                batch.len() == i - from,
                forall|j: int| 0 <= j < batch.len() ==> (#[trigger] batch@[j])@ == all[from + j],
        {
            assert(all[i as int] == prefix@ + texts@[i as int]@);
            batch.push(join2(prefix, texts[i].as_str()));
        }
        proof {
            assert(views(batch@) =~= all.subrange(from as int, to as int));
            assert(to == texts.len() ==> all.subrange(from as int, to as int) =~= all.skip(
                from as int,
            ));
        }
        out.push(batch);
        proof {
            let one = seq![all.subrange(from as int, to as int)];
            assert(batch_views(out@) =~= before + one);
            assert(batched(all, from as int) =~= one + batched(all, to as int));
            assert(before + (one + batched(all, to as int)) =~= before + one + batched(
                all,
                to as int,
            ));
        }
        from = to;
    }
    assert(batch_views(out@) + batched(all, from as int) =~= batch_views(out@));
    out
}

/// The rows of a table, one behind the other.
pub open spec fn flat(rows: Seq<Vec<u32>>) -> Seq<i64>
    decreases rows.len(),
{
    if rows.len() == 0 {
        Seq::empty()
    } else {
        flat(rows.drop_last()) + rows.last()@.map_values(|t: u32| t as i64)
    }
}

/// Lays the rows of a table out one behind the other.
pub fn flatten_rows(rows: &Vec<Vec<u32>>) -> (r: Vec<i64>)
    ensures
        r@ == flat(rows@),
{
    let mut out: Vec<i64> = Vec::new();
    assert(out@ =~= flat(rows@.take(0)));
    for i in 0..rows.len()
        invariant
            out@ == flat(rows@.take(i as int)),
    {
        let ghost before = out@;
        let row = &rows[i];
        let ghost wide = row@.map_values(|t: u32| t as i64);
        assert(rows@.take(i + 1).drop_last() =~= rows@.take(i as int));
        assert(before + wide.take(0) =~= before);
        for k in 0..row.len()
            invariant
                wide == row@.map_values(|t: u32| t as i64),
                out@ == before + wide.take(k as int),
        {
            out.push(row[k] as i64);
            assert(out@ =~= before + wide.take(k + 1));
        }
        assert(wide.take(wide.len() as int) =~= wide);
    }
    assert(rows@.take(rows.len() as int) =~= rows@);
    out
}

proof fn lemma_batches(texts: Seq<Seq<char>>, from: int)
    requires
        0 <= from <= texts.len(),
    ensures
        batched(texts, from).flatten() == texts.skip(from),
        forall|i: int|
            0 <= i < batched(texts, from).len() ==> 0 < (#[trigger] batched(texts, from)[i]).len()
                <= BATCH,
    decreases texts.len() - from,
{
    let bs = batched(texts, from);
    if from >= texts.len() {
        assert(texts.skip(from) =~= Seq::empty());
        assert(bs.flatten() =~= Seq::empty());
    } else if from + BATCH >= texts.len() {
        bs.lemma_flatten_one_element();
    } else {
        let to = from + BATCH;
        lemma_batches(texts, to);
        let rest = batched(texts, to);
        assert(bs.drop_first() =~= rest);
        assert(bs.flatten() =~= bs[0] + rest.flatten());
        assert(texts.subrange(from, to) + texts.skip(to) =~= texts.skip(from));
        assert forall|i: int| 0 <= i < bs.len() implies 0 < (#[trigger] bs[i]).len() <= BATCH by {
            if i > 0 {
                assert(bs[i] == rest[i - 1]);
            }
        }
    }
}

/// The batches hold all texts in their order, and none is empty or too large.
pub proof fn law_batches_hold_all_texts(texts: Seq<Seq<char>>)
    ensures
        batched(texts, 0).flatten() == texts,
        forall|i: int|
            0 <= i < batched(texts, 0).len() ==> 0 < (#[trigger] batched(texts, 0)[i]).len()
                <= BATCH,
{
    lemma_batches(texts, 0);
    assert(texts.skip(0) =~= texts);
}

/// All batches but the last are full.
pub proof fn law_batches_are_full(texts: Seq<Seq<char>>, from: int)
    requires
        0 <= from <= texts.len(),
    ensures
        forall|i: int|
            0 <= i < batched(texts, from).len() - 1 ==> (#[trigger] batched(texts, from)[i]).len()
                == 16,
        batched(texts, from).len() == 0 <==> from == texts.len(),
    decreases texts.len() - from,
{
    let bs = batched(texts, from);
    if from < texts.len() && from + BATCH < texts.len() {
        let rest = batched(texts, from + BATCH);
        law_batches_are_full(texts, from + BATCH);
        assert forall|i: int| 0 <= i < bs.len() - 1 implies (#[trigger] bs[i]).len() == 16 by {
            if i > 0 {
                assert(bs[i] == rest[i - 1]);
            }
        }
    }
}

/// Every text keeps its place and gets the prefix in front of it.
pub proof fn law_every_text_gets_its_prefix(texts: Seq<Seq<char>>, prefix: Seq<char>, i: int)
    requires
        0 <= i < texts.len(),
    ensures
        with_prefix(texts, prefix).len() == texts.len(),
        with_prefix(texts, prefix)[i] == prefix + texts[i],
{
}

/// The rows of a table with `w` columns are laid out one behind the other: the
/// number in the row `i` and the column `k` stands at `i * w + k`.
pub proof fn law_rows_are_laid_out_in_order(rows: Seq<Vec<u32>>, w: int, i: int, k: int)
    requires
        forall|j: int| 0 <= j < rows.len() ==> (#[trigger] rows[j]).len() == w,
    ensures
        flat(rows).len() == rows.len() * w,
        0 <= i < rows.len() && 0 <= k < w ==> 0 <= i * w + k < flat(rows).len() && flat(rows)[i * w
            + k] == rows[i]@[k],
    decreases rows.len(),
{
    let n = rows.len() as int;
    if n > 0 {
        let t = rows.drop_last();
        assert forall|j: int| 0 <= j < t.len() implies (#[trigger] t[j]).len() == w by {
            assert(t[j] == rows[j]);
        }
        law_rows_are_laid_out_in_order(t, w, i, k);
        assert(rows[n - 1].len() == w);
        assert(n * w == (n - 1) * w + w) by (nonlinear_arith);
        if 0 <= i < n && 0 <= k < w {
            if i < n - 1 {
                assert(flat(rows)[i * w + k] == flat(t)[i * w + k]);
                assert(t[i] == rows[i]);
            } else {
                assert(i * w == (n - 1) * w);
                assert(0 <= (n - 1) * w) by (nonlinear_arith)
                    requires
                        n >= 1,
                        w >= 0,
                ;
                assert(flat(rows)[i * w + k] == rows[n - 1]@.map_values(|t: u32| t as i64)[k]);
            }
        }
    } else {
        assert(0 * w == 0) by (nonlinear_arith);
    }
}

} // verus!
