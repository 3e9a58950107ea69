use vstd::prelude::*;

use crate::ranking::{
    lemma_ranked_by_key, lemma_truncated_ranking_keeps_best, lemma_ranking_unique, all_indices, is_ranked, is_ranking_of, mask_indices, passing, rank_by_score, ranks_before,
    sort_by_score, truncated,
};

verus! {

/// The rows of a boolean matrix, each by its view.
pub open spec fn matrix_view(m: Seq<Vec<bool>>) -> Seq<Seq<bool>> {
    m.map_values(|row: Vec<bool>| row@)
}

/// An `n` by `n` matrix.
pub open spec fn is_square(m: Seq<Seq<bool>>, n: nat) -> bool {
    m.len() == n && forall|i: int| 0 <= i < n ==> (#[trigger] m[i]).len() == n
}

/// The elements of `s` that `row` does not mark, in their order in `s`.
pub open spec fn survivors(s: Seq<usize>, row: Seq<bool>) -> Seq<usize>
    decreases s.len(),
{
    if s.len() == 0 {
        s
    } else {
        let prev = survivors(s.drop_last(), row);
        if row[s.last() as int] {
            prev
        } else {
            prev.push(s.last())
        }
    }
}

pub proof fn lemma_survivors_len(s: Seq<usize>, row: Seq<bool>)
    ensures
        survivors(s, row).len() <= s.len(),
    decreases s.len(),
{
    if s.len() > 0 {
        lemma_survivors_len(s.drop_last(), row);
    }
}

/// Greedy non-maxima suppression over candidates listed best first: keep the first
/// candidate, drop every remaining candidate that it suppresses (`sup[kept][other]`),
/// and repeat on what is left.
pub open spec fn greedy_keep(order: Seq<usize>, sup: Seq<Seq<bool>>) -> Seq<usize>
    decreases order.len(),
{
    if order.len() == 0 {
        order
    } else {
        let head = order[0];
        let rest = survivors(order.drop_first(), sup[head as int]);
        proof {
            lemma_survivors_len(order.drop_first(), sup[head as int]);
        }
        seq![head] + greedy_keep(rest, sup)
    }
}

proof fn lemma_survivors_contains(s: Seq<usize>, row: Seq<bool>, x: usize)
    ensures
        survivors(s, row).contains(x) <==> (s.contains(x) && !row[x as int]),
    decreases s.len(),
{
    if s.len() > 0 {
        let t = s.drop_last();
        lemma_survivors_contains(t, row, x);
        let prev = survivors(t, row);
        if s.contains(x) && x != s.last() {
            let q = choose|q: int| 0 <= q < s.len() && s[q] == x;
            assert(t[q] == x);
        }
        if t.contains(x) {
            let q = choose|q: int| 0 <= q < t.len() && t[q] == x;
            assert(s[q] == x);
        }
        if !row[s.last() as int] {
            assert(prev.push(s.last())[prev.len() as int] == s.last());
            if prev.contains(x) {
                let q = choose|q: int| 0 <= q < prev.len() && prev[q] == x;
                assert(prev.push(s.last())[q] == x);
            }
            if prev.push(s.last()).contains(x) && x != s.last() {
                let q = choose|q: int| 0 <= q < prev.len() + 1 && prev.push(s.last())[q] == x;
                assert(prev[q] == x);
            }
        }
        assert(s[s.len() - 1] == s.last());
    }
}

proof fn lemma_survivors_ranked(keys: Seq<u32>, s: Seq<usize>, row: Seq<bool>)
    requires
        is_ranked(keys, s),
    ensures
        is_ranked(keys, survivors(s, row)),
    decreases s.len(),
{
    if s.len() > 0 {
        let t = s.drop_last();
        assert(is_ranked(keys, t)) by {
            assert forall|i: int, j: int| 0 <= i < j < t.len() implies ranks_before(
                keys,
                #[trigger] t[i],
                #[trigger] t[j],
            ) by {
                assert(s[i] == t[i] && s[j] == t[j]);
            }
        }
        lemma_survivors_ranked(keys, t, row);
        let prev = survivors(t, row);
        if !row[s.last() as int] {
            let np = prev.push(s.last());
            assert forall|i: int, j: int| 0 <= i < j < np.len() implies ranks_before(
                keys,
                #[trigger] np[i],
                #[trigger] np[j],
            ) by {
                if j == prev.len() {
                    lemma_survivors_contains(t, row, np[i]);
                    assert(prev.contains(prev[i]));
                    let q = choose|q: int| 0 <= q < t.len() && t[q] == np[i];
                    assert(s[q] == np[i]);
                    assert(s[s.len() - 1] == np[j]);
                } else {
                    assert(np[i] == prev[i] && np[j] == prev[j]);
                }
            }
        }
    }
}

proof fn lemma_greedy_contains(order: Seq<usize>, sup: Seq<Seq<bool>>, x: usize)
    requires
        greedy_keep(order, sup).contains(x),
    ensures
        order.contains(x),
    decreases order.len(),
{
    let head = order[0];
    let tail = order.drop_first();
    let rest = survivors(tail, sup[head as int]);
    lemma_survivors_len(tail, sup[head as int]);
    let g = greedy_keep(order, sup);
    let q = choose|q: int| 0 <= q < g.len() && g[q] == x;
    if q == 0 {
        assert(order[0] == x);
    } else {
        assert(greedy_keep(rest, sup)[q - 1] == x);
        lemma_greedy_contains(rest, sup, x);
        lemma_survivors_contains(tail, sup[head as int], x);
        let r = choose|r: int| 0 <= r < tail.len() && tail[r] == x;
        assert(order[r + 1] == x);
    }
}

proof fn lemma_ranked_tail(keys: Seq<u32>, s: Seq<usize>)
    requires
        is_ranked(keys, s),
        s.len() > 0,
    ensures
        is_ranked(keys, s.drop_first()),
        forall|i: int| 0 <= i < s.drop_first().len() ==> ranks_before(keys, s[0], #[trigger] s.drop_first()[i]),
{
    assert forall|i: int, j: int| 0 <= i < j < s.drop_first().len() implies ranks_before(
        keys,
        #[trigger] s.drop_first()[i],
        #[trigger] s.drop_first()[j],
    ) by {
        assert(s[i + 1] == s.drop_first()[i] && s[j + 1] == s.drop_first()[j]);
    }
    assert forall|i: int| 0 <= i < s.drop_first().len() implies ranks_before(keys, s[0], #[trigger] s.drop_first()[i]) by {
        assert(s[i + 1] == s.drop_first()[i]);
    }
}

/// Law: what greedy suppression keeps of a ranked candidate list is itself ranked, so
/// the kept candidates come out best first, each once.
pub proof fn lemma_kept_are_ranked(keys: Seq<u32>, order: Seq<usize>, sup: Seq<Seq<bool>>)
    requires
        is_ranked(keys, order),
    ensures
        is_ranked(keys, greedy_keep(order, sup)),
    decreases order.len(),
{
    if order.len() > 0 {
        let head = order[0];
        let tail = order.drop_first();
        let rest = survivors(tail, sup[head as int]);
        lemma_survivors_len(tail, sup[head as int]);
        lemma_ranked_tail(keys, order);
        lemma_survivors_ranked(keys, tail, sup[head as int]);
        lemma_kept_are_ranked(keys, rest, sup);
        let gr = greedy_keep(rest, sup);
        let g = greedy_keep(order, sup);
        assert(g == seq![head] + gr);
        assert forall|i: int, j: int| 0 <= i < j < g.len() implies ranks_before(
            keys,
            #[trigger] g[i],
            #[trigger] g[j],
        ) by {
            if i == 0 {
                assert(g[j] == gr[j - 1]);
                assert(gr.contains(gr[j - 1]));
                lemma_greedy_contains(rest, sup, gr[j - 1]);
                lemma_survivors_contains(tail, sup[head as int], gr[j - 1]);
                let r = choose|r: int| 0 <= r < tail.len() && tail[r] == gr[j - 1];
                assert(ranks_before(keys, order[0], tail[r]));
            } else {
                assert(g[i] == gr[i - 1] && g[j] == gr[j - 1]);
            }
        }
    }
}

/// Law: the best candidate is always kept, first.
pub proof fn lemma_best_candidate_kept(order: Seq<usize>, sup: Seq<Seq<bool>>)
    requires
        order.len() > 0,
    ensures
        greedy_keep(order, sup).len() > 0,
        greedy_keep(order, sup)[0] == order[0],
{
    lemma_survivors_len(order.drop_first(), sup[order[0] as int]);
}

/// Law: every kept candidate is one of the candidates.
pub proof fn lemma_kept_are_candidates(order: Seq<usize>, sup: Seq<Seq<bool>>, x: usize)
    requires
        greedy_keep(order, sup).contains(x),
    ensures
        order.contains(x),
{
    lemma_greedy_contains(order, sup, x);
}

/// Law: no kept candidate is suppressed by a candidate kept before it.
pub proof fn lemma_kept_do_not_suppress_each_other(order: Seq<usize>, sup: Seq<Seq<bool>>)
    ensures
        forall|i: int, j: int|
            0 <= i < j < greedy_keep(order, sup).len() ==> !sup[greedy_keep(order, sup)[i] as int][
            greedy_keep(order, sup)[j] as int],
    decreases order.len(),
{
    if order.len() > 0 {
        let head = order[0];
        let tail = order.drop_first();
        let rest = survivors(tail, sup[head as int]);
        lemma_survivors_len(tail, sup[head as int]);
        lemma_kept_do_not_suppress_each_other(rest, sup);
        let gr = greedy_keep(rest, sup);
        let g = greedy_keep(order, sup);
        assert(g == seq![head] + gr);
        assert forall|i: int, j: int| 0 <= i < j < g.len() implies !sup[g[i] as int][g[j] as int] by {
            if i == 0 {
                assert(g[j] == gr[j - 1]);
                assert(gr.contains(gr[j - 1]));
                lemma_greedy_contains(rest, sup, gr[j - 1]);
                lemma_survivors_contains(tail, sup[head as int], gr[j - 1]);
            } else {
                assert(g[i] == gr[i - 1] && g[j] == gr[j - 1]);
            }
        }
    }
}

/// Law: every candidate that greedy suppression drops is suppressed by a kept candidate
/// that ranks before it.
pub proof fn lemma_dropped_are_suppressed(
    keys: Seq<u32>,
    order: Seq<usize>,
    sup: Seq<Seq<bool>>,
    x: usize,
)
    requires
        is_ranked(keys, order),
        order.contains(x),
        !greedy_keep(order, sup).contains(x),
    ensures
        exists|i: int|
            0 <= i < greedy_keep(order, sup).len() && sup[greedy_keep(order, sup)[i] as int][x as int]
                && ranks_before(keys, #[trigger] greedy_keep(order, sup)[i], x),
    decreases order.len(),
{
    let head = order[0];
    let tail = order.drop_first();
    let rest = survivors(tail, sup[head as int]);
    lemma_survivors_len(tail, sup[head as int]);
    let g = greedy_keep(order, sup);
    let gr = greedy_keep(rest, sup);
    assert(g == seq![head] + gr);
    assert(g[0] == head);
    if x == head {
        assert(g.contains(x));
    } else {
        let q = choose|q: int| 0 <= q < order.len() && order[q] == x;
        assert(tail[q - 1] == x);
        assert(tail.contains(x));
        lemma_ranked_tail(keys, order);
        if sup[head as int][x as int] {
            assert(ranks_before(keys, head, tail[q - 1]));
        } else {
            lemma_survivors_contains(tail, sup[head as int], x);
            lemma_survivors_ranked(keys, tail, sup[head as int]);
            if gr.contains(x) {
                let r = choose|r: int| 0 <= r < gr.len() && gr[r] == x;
                assert(g[r + 1] == x);
            }
            lemma_dropped_are_suppressed(keys, rest, sup, x);
            let r = choose|r: int|
                0 <= r < gr.len() && sup[gr[r] as int][x as int] && ranks_before(keys, #[trigger] gr[r], x);
            assert(g[r + 1] == gr[r]);
        }
    }
}

proof fn lemma_survivors_all(s: Seq<usize>, row: Seq<bool>)
    requires
        forall|i: int| 0 <= i < s.len() ==> !row[#[trigger] s[i] as int],
    ensures
        survivors(s, row) == s,
    decreases s.len(),
{
    if s.len() > 0 {
        let t = s.drop_last();
        assert forall|i: int| 0 <= i < t.len() implies !row[#[trigger] t[i] as int] by {
            assert(s[i] == t[i]);
        }
        lemma_survivors_all(t, row);
        assert(!row[s[s.len() - 1] as int]);
        assert(t.push(s.last()) =~= s);
    }
}

proof fn lemma_greedy_keeps_compatible(s: Seq<usize>, sup: Seq<Seq<bool>>)
    requires
        forall|i: int, j: int| 0 <= i < j < s.len() ==> !sup[s[i] as int][s[j] as int],
    ensures
        greedy_keep(s, sup) == s,
    decreases s.len(),
{
    if s.len() > 0 {
        let head = s[0];
        let tail = s.drop_first();
        assert forall|i: int| 0 <= i < tail.len() implies !sup[head as int][#[trigger] tail[i] as int] by {
            assert(s[i + 1] == tail[i]);
        }
        lemma_survivors_all(tail, sup[head as int]);
        assert forall|i: int, j: int| 0 <= i < j < tail.len() implies !sup[tail[i] as int][tail[j] as int] by {
            assert(s[i + 1] == tail[i] && s[j + 1] == tail[j]);
        }
        lemma_greedy_keeps_compatible(tail, sup);
        assert(seq![head] + tail =~= s);
    }
}

/// Law: suppression is idempotent; running it again on what it kept keeps everything.
pub proof fn lemma_suppression_idempotent(order: Seq<usize>, sup: Seq<Seq<bool>>)
    ensures
        greedy_keep(greedy_keep(order, sup), sup) == greedy_keep(order, sup),
{
    lemma_kept_do_not_suppress_each_other(order, sup);
    lemma_greedy_keeps_compatible(greedy_keep(order, sup), sup);
}

proof fn lemma_greedy_len(order: Seq<usize>, sup: Seq<Seq<bool>>)
    ensures
        greedy_keep(order, sup).len() <= order.len(),
    decreases order.len(),
{
    if order.len() > 0 {
        let rest = survivors(order.drop_first(), sup[order[0] as int]);
        lemma_survivors_len(order.drop_first(), sup[order[0] as int]);
        lemma_greedy_len(rest, sup);
    }
}

/// Re-indexed score keys of the kept candidates: entry `a` is the key of `kept[a]`.
pub open spec fn reindexed_keys(keys: Seq<u32>, kept: Seq<usize>) -> Seq<u32> {
    kept.map_values(|i: usize| keys[i as int])
}

/// The suppression matrix among the kept candidates, re-indexed by their positions.
pub open spec fn reindexed_matrix(sup: Seq<Seq<bool>>, kept: Seq<usize>) -> Seq<Seq<bool>> {
    Seq::new(kept.len(), |a: int| Seq::new(kept.len(), |b: int| sup[kept[a] as int][kept[b] as int]))
}

/// Law: non-maxima suppression applied again to what it kept (the kept boxes taken as
/// a new input, with their scores and overlaps) keeps all of them, in the same order.
pub proof fn lemma_nms_reapplied(
    keys: Seq<u32>,
    sup: Seq<Seq<bool>>,
    order: Seq<usize>,
    again: Seq<usize>,
)
    requires
        keys.len() <= usize::MAX,
        is_ranking_of(keys, all_indices(keys.len()), order),
        is_ranking_of(
            reindexed_keys(keys, greedy_keep(order, sup)),
            all_indices(greedy_keep(order, sup).len()),
            again,
        ),
    ensures
        greedy_keep(again, reindexed_matrix(sup, greedy_keep(order, sup))).map_values(
            |a: usize| greedy_keep(order, sup)[a as int],
        ) == greedy_keep(order, sup),
{
    let g = greedy_keep(order, sup);
    let k = g.len();
    let sub_keys = reindexed_keys(keys, g);
    let m2 = reindexed_matrix(sup, g);
    let id = all_indices(k);
    lemma_greedy_len(order, sup);
    lemma_kept_are_ranked(keys, order, sup);
    lemma_kept_do_not_suppress_each_other(order, sup);
    assert forall|a: int, b: int| 0 <= a < b < id.len() implies ranks_before(
        sub_keys,
        #[trigger] id[a],
        #[trigger] id[b],
    ) by {
        assert(ranks_before(keys, g[a], g[b]));
        assert(id[a] == a as usize && id[b] == b as usize);
        assert(sub_keys[a] == keys[g[a] as int] && sub_keys[b] == keys[g[b] as int]);
    }
    assert forall|x: usize| #[trigger] again.contains(x) <==> id.contains(x) by {
        if x < k {
            assert(id[x as int] == x);
        }
    }
    lemma_ranking_unique(sub_keys, again, id);
    assert forall|a: int, b: int| 0 <= a < b < id.len() implies !m2[id[a] as int][id[b] as int] by {
        assert(id[a] == a as usize && id[b] == b as usize);
        assert(!sup[g[a] as int][g[b] as int]);
    }
    lemma_greedy_keeps_compatible(id, m2);
    let mapped = id.map_values(|a: usize| g[a as int]);
    assert forall|i: int| 0 <= i < k implies #[trigger] mapped[i] == g[i] by {
        assert(id[i] == i as usize);
    }
    assert(mapped =~= g);
}

/// The row that marks every index whose label differs from `c`.
pub open spec fn class_row(labels: Seq<i32>, c: i32) -> Seq<bool> {
    labels.map_values(|l: i32| l != c)
}

/// The elements of `s` whose label is `c`, in their order in `s`.
pub open spec fn of_class(s: Seq<usize>, labels: Seq<i32>, c: i32) -> Seq<usize> {
    survivors(s, class_row(labels, c))
}

/// No box suppresses a box of another class.
pub open spec fn separates_classes(sup: Seq<Seq<bool>>, labels: Seq<i32>) -> bool {
    forall|i: int, j: int|
        0 <= i < labels.len() && 0 <= j < labels.len() && labels[i] != labels[j] ==> !#[trigger] sup[i][j]
}

proof fn lemma_survivors_concat(a: Seq<usize>, b: Seq<usize>, row: Seq<bool>)
    ensures
        survivors(a + b, row) == survivors(a, row) + survivors(b, row),
    decreases b.len(),
{
    if b.len() == 0 {
        assert(a + b =~= a);
        assert(survivors(a, row) + survivors(b, row) =~= survivors(a, row));
    } else {
        let bt = b.drop_last();
        lemma_survivors_concat(a, bt, row);
        assert((a + b).drop_last() =~= a + bt);
        assert((a + b).last() == b.last());
        if !row[b.last() as int] {
            assert(survivors(a, row) + survivors(bt, row).push(b.last()) =~= (survivors(a, row)
                + survivors(bt, row)).push(b.last()));
        }
    }
}

proof fn lemma_survivors_commute(s: Seq<usize>, r1: Seq<bool>, r2: Seq<bool>)
    ensures
        survivors(survivors(s, r1), r2) == survivors(survivors(s, r2), r1),
    decreases s.len(),
{
    if s.len() > 0 {
        let t = s.drop_last();
        let l = s.last();
        lemma_survivors_commute(t, r1, r2);
        let p1 = survivors(t, r1);
        let p2 = survivors(t, r2);
        assert(p1.push(l).drop_last() =~= p1);
        assert(p2.push(l).drop_last() =~= p2);
        assert(p1.push(l).last() == l);
        assert(p2.push(l).last() == l);
    }
}

proof fn lemma_head_survivors(h: usize, rest: Seq<usize>, row: Seq<bool>)
    ensures
        survivors(seq![h] + rest, row) == if row[h as int] {
            survivors(rest, row)
        } else {
            seq![h] + survivors(rest, row)
        },
{
    lemma_survivors_concat(seq![h], rest, row);
    assert(seq![h].drop_last() =~= Seq::<usize>::empty());
    assert(seq![h].last() == h);
    assert(survivors(Seq::<usize>::empty(), row) =~= Seq::<usize>::empty());
    assert(Seq::<usize>::empty().push(h) =~= seq![h]);
    assert(Seq::<usize>::empty() + survivors(rest, row) =~= survivors(rest, row));
}

/// Law: suppression decomposes by class. Where no box suppresses a box of another class,
/// the kept boxes of class `c` are exactly what suppression keeps of the boxes of class
/// `c` alone, taken in the same order.
pub proof fn lemma_suppression_by_class(order: Seq<usize>, sup: Seq<Seq<bool>>, labels: Seq<i32>, c: i32)
    requires
        separates_classes(sup, labels),
        forall|i: int| 0 <= i < order.len() ==> #[trigger] order[i] < labels.len(),
    ensures
        of_class(greedy_keep(order, sup), labels, c) == greedy_keep(of_class(order, labels, c), sup),
    decreases order.len(),
{
    let cr = class_row(labels, c);
    if order.len() == 0 {
        assert(survivors(order, cr) =~= order);
    } else {
        let h = order[0];
        let tail = order.drop_first();
        let row = sup[h as int];
        let surv = survivors(tail, row);
        lemma_survivors_len(tail, row);
        assert forall|i: int| 0 <= i < surv.len() implies #[trigger] surv[i] < labels.len() by {
            assert(surv.contains(surv[i]));
            lemma_survivors_contains(tail, row, surv[i]);
            let q = choose|q: int| 0 <= q < tail.len() && tail[q] == surv[i];
            assert(order[q + 1] == surv[i]);
        }
        lemma_suppression_by_class(surv, sup, labels, c);
        let g = greedy_keep(order, sup);
        let gs = greedy_keep(surv, sup);
        assert(g == seq![h] + gs);
        assert(order =~= seq![h] + tail);
        lemma_head_survivors(h, gs, cr);
        lemma_head_survivors(h, tail, cr);
        assert(h < labels.len());
        // survivors commute: the class-c part of what h leaves equals what h leaves of class c
        lemma_survivors_commute(tail, row, cr);
        if labels[h as int] == c {
            assert(!cr[h as int]);
            let oc = of_class(order, labels, c);
            assert(oc == seq![h] + survivors(tail, cr));
            assert(oc[0] == h);
            assert(oc.drop_first() =~= survivors(tail, cr));
        } else {
            assert(cr[h as int]);
            let tc = survivors(tail, cr);
            assert forall|i: int| 0 <= i < tc.len() implies !row[#[trigger] tc[i] as int] by {
                assert(tc.contains(tc[i]));
                lemma_survivors_contains(tail, cr, tc[i]);
                let q = choose|q: int| 0 <= q < tail.len() && tail[q] == tc[i];
                assert(order[q + 1] == tc[i]);
                assert(tc[i] < labels.len());
                assert(labels[tc[i] as int] == c);
                assert(!sup[h as int][tc[i] as int]);
            }
            lemma_survivors_all(tc, row);
        }
    }
}

/// Law: class-aware suppression, stated on `nms`'s own terms. Where no box suppresses a
/// box of another class, the kept boxes of class `c` are what suppression keeps when run
/// on the ranking of the class-`c` boxes alone: that ranking is ranked and holds exactly
/// the boxes labelled `c`, and suppression over it gives the kept boxes of class `c`.
pub proof fn lemma_nms_by_class(
    keys: Seq<u32>,
    sup: Seq<Seq<bool>>,
    labels: Seq<i32>,
    c: i32,
    order: Seq<usize>,
)
    requires
        is_ranking_of(keys, all_indices(keys.len()), order),
        labels.len() == keys.len(),
        separates_classes(sup, labels),
    ensures
        is_ranked(keys, of_class(order, labels, c)),
        forall|x: usize| #[trigger] of_class(order, labels, c).contains(x) <==> (x < labels.len() && labels[x as int] == c),
        of_class(greedy_keep(order, sup), labels, c) == greedy_keep(of_class(order, labels, c), sup),
{
    let cr = class_row(labels, c);
    assert forall|i: int| 0 <= i < order.len() implies #[trigger] order[i] < labels.len() by {
        assert(order.contains(order[i]));
        assert(all_indices(keys.len()).contains(order[i]));
    }
    lemma_survivors_ranked(keys, order, cr);
    assert forall|x: usize| #[trigger] of_class(order, labels, c).contains(x) <==> (x < labels.len()
        && labels[x as int] == c) by {
        lemma_survivors_contains(order, cr, x);
        if x < labels.len() {
            assert(all_indices(keys.len())[x as int] == x);
            assert(all_indices(keys.len()).contains(x));
        }
        if order.contains(x) {
            assert(all_indices(keys.len()).contains(x));
        }
    }
    lemma_suppression_by_class(order, sup, labels, c);
}

/// Greedy suppression over a ranked candidate list.
fn keep_greedy(order: Vec<usize>, sup: &Vec<Vec<bool>>) -> (kept: Vec<usize>)
    requires
        is_square(matrix_view(sup@), sup.len() as nat),
        forall|i: int| 0 <= i < order.len() ==> #[trigger] order@[i] < sup.len(),
    ensures
        kept@ == greedy_keep(order@, matrix_view(sup@)),
{
    let ghost m = matrix_view(sup@);
    let ghost full = order@;
    let n = sup.len();
    let mut kept: Vec<usize> = Vec::new();
    let mut rem = order;
    while rem.len() > 0
        invariant
            n == sup.len(),
            m == matrix_view(sup@),
            is_square(m, n as nat),
            forall|i: int| 0 <= i < rem.len() ==> #[trigger] rem@[i] < n,
            kept@ + greedy_keep(rem@, m) == greedy_keep(full, m),
        decreases rem.len(),
    {
        let head = rem[0];
        let ghost tail = rem@.drop_first();
        assert(m[head as int] == sup@[head as int]@);
        let mut next: Vec<usize> = Vec::new();
        let mut j: usize = 1;
        while j < rem.len()
            invariant
                n == sup.len(),
                m == matrix_view(sup@),
                is_square(m, n as nat),
                head < n,
                1 <= j <= rem.len(),
                tail == rem@.drop_first(),
                forall|i: int| 0 <= i < rem.len() ==> #[trigger] rem@[i] < n,
                forall|i: int| 0 <= i < next.len() ==> #[trigger] next@[i] < n,
                next@ == survivors(tail.take(j - 1), m[head as int]),
            decreases rem.len() - j,
        {
            let x = rem[j];
            let ghost pre = tail.take(j - 1);
            assert(tail.take(j as int).drop_last() =~= pre);
            assert(tail.take(j as int).last() == x);
            assert(sup@[head as int]@.len() == n);
            if !sup[head][x] {
                next.push(x);
            }
            j = j + 1;
        }
        assert(tail.take(rem.len() - 1) =~= tail);
        proof {
            lemma_survivors_len(tail, m[head as int]);
            assert(greedy_keep(rem@, m) == seq![head] + greedy_keep(next@, m));
            assert(kept@.push(head) + greedy_keep(next@, m) =~= kept@ + greedy_keep(rem@, m));
        }
        kept.push(head);
        rem = next;
    }
    assert(kept@ + greedy_keep(rem@, m) =~= kept@);
    kept
}

/// Class-aware non-maxima suppression. Candidates are ranked by descending score key
/// (ties by index); then, best first, each remaining candidate is kept and every
/// candidate it suppresses is dropped. `suppresses[i][j]` says whether keeping box `i`
/// drops box `j`: whether their class-shifted boxes fail to overlap by at most the
/// threshold. The result lists the kept candidates best first.
pub fn nms(score_keys: &Vec<u32>, suppresses: &Vec<Vec<bool>>) -> (kept: Vec<usize>)
    requires
        is_square(matrix_view(suppresses@), score_keys.len() as nat),
    ensures
        exists|order: Seq<usize>|
            #[trigger] is_ranking_of(score_keys@, all_indices(score_keys@.len()), order) && kept@
                == greedy_keep(order, matrix_view(suppresses@)),
        forall|i: int| 0 <= i < kept.len() ==> #[trigger] kept@[i] < score_keys.len(),
        forall|i: int, j: int|
            0 <= i < j < kept.len() ==> !suppresses@[#[trigger] kept@[i] as int]@[#[trigger] kept@[j] as int]
                && score_keys@[kept@[i] as int] >= score_keys@[kept@[j] as int]
                && kept@[i] != kept@[j],
        forall|x: usize|
            x < score_keys.len() && !#[trigger] kept@.contains(x) ==> exists|i: int|
                0 <= i < kept.len() && suppresses@[#[trigger] kept@[i] as int]@[x as int]
                    && score_keys@[kept@[i] as int] >= score_keys@[x as int],
{
    let order = rank_by_score(score_keys);
    let ghost o = order@;
    let kept = keep_greedy(order, suppresses);
    proof {
        let n = score_keys@.len();
        let m = matrix_view(suppresses@);
        let keys = score_keys@;
        assert(is_ranking_of(keys, all_indices(n), o));
        lemma_kept_do_not_suppress_each_other(o, m);
        lemma_kept_are_ranked(keys, o, m);
        lemma_ranked_by_key(keys, kept@);
        assert forall|i: int| 0 <= i < kept.len() implies #[trigger] kept@[i] < score_keys.len() by {
            assert(kept@.contains(kept@[i]));
            lemma_kept_are_candidates(o, m, kept@[i]);
            assert(all_indices(n).contains(kept@[i]));
        }
        assert forall|i: int, j: int| 0 <= i < j < kept.len() implies !suppresses@[#[trigger] kept@[i] as int]@[
            #[trigger] kept@[j] as int] && score_keys@[kept@[i] as int] >= score_keys@[kept@[j] as int]
            && kept@[i] != kept@[j] by {
            assert(m[kept@[i] as int] == suppresses@[kept@[i] as int]@);
            assert(!m[kept@[i] as int][kept@[j] as int]);
            assert(ranks_before(keys, kept@[i], kept@[j]));
        }
        assert forall|x: usize| x < score_keys.len() && !#[trigger] kept@.contains(x) implies exists|i: int|
            0 <= i < kept.len() && suppresses@[#[trigger] kept@[i] as int]@[x as int]
                && score_keys@[kept@[i] as int] >= score_keys@[x as int] by {
            assert(all_indices(n)[x as int] == x);
            assert(all_indices(n).contains(x));
            assert(o.contains(x));
            lemma_dropped_are_suppressed(keys, o, m, x);
            let i = choose|i: int|
                0 <= i < kept@.len() && m[kept@[i] as int][x as int] && ranks_before(keys, #[trigger] kept@[i], x);
            assert(kept@.contains(kept@[i]));
            assert(kept@[i] < score_keys.len());
            assert(m[kept@[i] as int] == suppresses@[kept@[i] as int]@);
        }
    }
    kept
}

/// The detections that a YOLO style model reports: non-maxima suppression over all
/// candidates, then at most `max_detect` of the kept ones, best first.
pub fn select_nms_boxes(score_keys: &Vec<u32>, suppresses: &Vec<Vec<bool>>, max_detect: usize) -> (kept: Vec<usize>)
    requires
        is_square(matrix_view(suppresses@), score_keys.len() as nat),
    ensures
        exists|order: Seq<usize>|
            #[trigger] is_ranking_of(score_keys@, all_indices(score_keys@.len()), order) && kept@
                == truncated(greedy_keep(order, matrix_view(suppresses@)), max_detect as nat),
        kept.len() <= max_detect,
        forall|i: int| 0 <= i < kept.len() ==> #[trigger] kept@[i] < score_keys.len(),
        forall|i: int, j: int|
            0 <= i < j < kept.len() ==> !suppresses@[#[trigger] kept@[i] as int]@[#[trigger] kept@[j] as int]
                && score_keys@[kept@[i] as int] >= score_keys@[kept@[j] as int]
                && kept@[i] != kept@[j],
{
    let mut kept = nms(score_keys, suppresses);
    let ghost all = kept@;
    kept.truncate(max_detect);
    assert forall|i: int| 0 <= i < kept.len() implies kept@[i] == all[i] by {}
    kept
}

/// The detections that a D-FINE style model reports: the candidates whose score clears
/// the confidence threshold (`passes`), best first, at most `max_detect` of them.
pub fn select_top_boxes(score_keys: &Vec<u32>, passes: &Vec<bool>, max_detect: usize) -> (kept: Vec<usize>)
    requires
        passes.len() == score_keys.len(),
    ensures
        exists|order: Seq<usize>|
            #[trigger] is_ranking_of(score_keys@, passing(passes@), order) && kept@ == truncated(
                order,
                max_detect as nat,
            ),
        kept.len() <= max_detect,
        forall|i: int| 0 <= i < kept.len() ==> #[trigger] kept@[i] < score_keys.len() && passes@[kept@[i] as int],
        forall|i: int, j: int|
            0 <= i < j < kept.len() ==> score_keys@[#[trigger] kept@[i] as int] >= score_keys@[#[trigger] kept@[j] as int]
                && kept@[i] != kept@[j],
        forall|x: usize|
            x < score_keys.len() && passes@[x as int] && !#[trigger] kept@.contains(x) ==> kept.len() == max_detect,
        forall|x: usize, i: int|
            x < score_keys.len() && passes@[x as int] && !#[trigger] kept@.contains(x) && 0 <= i < kept.len()
                ==> score_keys@[#[trigger] kept@[i] as int] >= score_keys@[x as int],
{
    let candidates = mask_indices(passes);
    assert(candidates@.no_duplicates()) by {
        assert forall|i: int, j: int| 0 <= i < candidates.len() && 0 <= j < candidates.len() && i != j implies candidates@[i] != candidates@[j] by {
            if i < j {
                assert(candidates@[i] < candidates@[j]);
            } else {
                assert(candidates@[j] < candidates@[i]);
            }
        }
    }
    assert forall|i: int| 0 <= i < candidates.len() implies #[trigger] candidates@[i] < score_keys.len() by {
        assert(candidates@.contains(candidates@[i]));
    }
    let ranked = sort_by_score(score_keys, &candidates);
    let ghost o = ranked@;
    let mut kept = ranked;
    kept.truncate(max_detect);
    proof {
        let keys = score_keys@;
        let pool = passing(passes@);
        assert(is_ranking_of(keys, pool, o));
        assert(kept@ =~= truncated(o, max_detect as nat));
        lemma_truncated_ranking_keeps_best(keys, pool, o, max_detect as nat);
        lemma_ranked_by_key(keys, kept@);
        assert forall|i: int| 0 <= i < kept.len() implies #[trigger] kept@[i] < score_keys.len() && passes@[kept@[i] as int] by {
            assert(kept@.contains(kept@[i]));
            assert(pool.contains(kept@[i]));
        }
        assert forall|x: usize|
            x < score_keys.len() && passes@[x as int] && !#[trigger] kept@.contains(x) implies kept.len() == max_detect by {
            assert(pool.contains(x));
            assert(o.contains(x));
        }
        assert forall|x: usize, i: int|
            x < score_keys.len() && passes@[x as int] && !#[trigger] kept@.contains(x) && 0 <= i < kept.len()
                implies score_keys@[#[trigger] kept@[i] as int] >= score_keys@[x as int] by {
            assert(pool.contains(x));
            assert(ranks_before(keys, kept@[i], x));
        }
    }
    kept
}

} // verus!
