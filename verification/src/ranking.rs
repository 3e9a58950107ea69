use vstd::prelude::*;

verus! {

/// The order in which predictions are reported: a higher score key first, and among
/// equal keys the lower index first. `keys[i]` is an order-preserving integer encoding
/// of the score of prediction `i`.
pub open spec fn ranks_before(keys: Seq<u32>, a: usize, b: usize) -> bool {
    keys[a as int] > keys[b as int] || (keys[a as int] == keys[b as int] && a < b)
}

/// Each element of `s` ranks before every later one (so no element occurs twice).
pub open spec fn is_ranked(keys: Seq<u32>, s: Seq<usize>) -> bool {
    forall|i: int, j: int| 0 <= i < j < s.len() ==> ranks_before(keys, #[trigger] s[i], #[trigger] s[j])
}

/// `s` is the ranking of the indices in `pool`: every one of them once, best first.
pub open spec fn is_ranking_of(keys: Seq<u32>, pool: Seq<usize>, s: Seq<usize>) -> bool {
    &&& s.len() == pool.len()
    &&& forall|x: usize| #[trigger] s.contains(x) <==> pool.contains(x)
    &&& is_ranked(keys, s)
}

/// The indices `0..n`.
pub open spec fn all_indices(n: nat) -> Seq<usize> {
    Seq::new(n, |i: int| i as usize)
}

/// The first `k` elements of `s`, or all of them where it has fewer.
pub open spec fn truncated<A>(s: Seq<A>, k: nat) -> Seq<A> {
    if k < s.len() {
        s.take(k as int)
    } else {
        s
    }
}

fn ranks_before_exec(keys: &Vec<u32>, a: usize, b: usize) -> (r: bool)
    requires
        a < keys.len(),
        b < keys.len(),
    ensures
        r == ranks_before(keys@, a, b),
{
    keys[a] > keys[b] || (keys[a] == keys[b] && a < b)
}

/// Sorts distinct indices by descending score key, ties by ascending index.
pub fn sort_by_score(keys: &Vec<u32>, idxs: &Vec<usize>) -> (r: Vec<usize>)
    requires
        forall|i: int| 0 <= i < idxs.len() ==> #[trigger] idxs@[i] < keys.len(),
        idxs@.no_duplicates(),
    ensures
        is_ranking_of(keys@, idxs@, r@),
        forall|i: int| 0 <= i < r.len() ==> #[trigger] r@[i] < keys.len(),
        forall|i: int, j: int|
            0 <= i < j < r.len() ==> keys@[#[trigger] r@[i] as int] >= keys@[#[trigger] r@[j] as int]
                && (keys@[r@[i] as int] == keys@[r@[j] as int] ==> r@[i] < r@[j]),
{
    let mut out: Vec<usize> = Vec::new();
    let m = idxs.len();
    for k in 0..m
        invariant
            m == idxs.len(),
            forall|i: int| 0 <= i < idxs.len() ==> #[trigger] idxs@[i] < keys.len(),
            idxs@.no_duplicates(),
            out.len() == k,
            forall|x: usize| #[trigger] out@.contains(x) <==> idxs@.take(k as int).contains(x),
            forall|i: int| 0 <= i < out.len() ==> #[trigger] out@[i] < keys.len(),
            is_ranked(keys@, out@),
    {
        let x = idxs[k];
        let mut p: usize = 0;
        while p < out.len() && ranks_before_exec(keys, out[p], x)
            invariant
                0 <= p <= out.len(),
                x < keys.len(),
                forall|i: int| 0 <= i < out.len() ==> #[trigger] out@[i] < keys.len(),
                forall|q: int| 0 <= q < p ==> ranks_before(keys@, #[trigger] out@[q], x),
            decreases out.len() - p,
        {
            p = p + 1;
        }
        proof {
            assert(!out@.contains(x)) by {
                if out@.contains(x) {
                    let q = choose|q: int| 0 <= q < k && #[trigger] idxs@.take(k as int)[q] == x;
                    assert(idxs@[q] == idxs@[k as int]);
                }
            }
            if p < out.len() {
                assert(out@[p as int] != x);
            }
        }
        let ghost old_out = out@;
        out.insert(p, x);
        proof {
            assert(idxs@.take(k + 1) =~= idxs@.take(k as int).push(x));
            assert forall|y: usize| #[trigger] out@.contains(y) <==> idxs@.take(k + 1).contains(y) by {
                if out@.contains(y) {
                    let q = choose|q: int| 0 <= q < out@.len() && out@[q] == y;
                    if q == p {
                        assert(idxs@.take(k + 1)[k as int] == y);
                    } else {
                        if q < p {
                            assert(old_out[q] == y);
                        } else {
                            assert(old_out[q - 1] == y);
                        }
                        assert(old_out.contains(y));
                        assert(idxs@.take(k as int).contains(y));
                        let r = choose|r: int| 0 <= r < k && #[trigger] idxs@.take(k as int)[r] == y;
                        assert(idxs@.take(k + 1)[r] == y);
                    }
                }
                if idxs@.take(k + 1).contains(y) {
                    if y == x {
                        assert(out@[p as int] == x);
                    } else {
                        assert(idxs@.take(k as int).contains(y)) by {
                            let q = choose|q: int| 0 <= q < k + 1 && #[trigger] idxs@.take(k + 1)[q] == y;
                            assert(idxs@.take(k as int)[q] == y);
                        }
                        assert(old_out.contains(y));
                        let q = choose|q: int| 0 <= q < old_out.len() && old_out[q] == y;
                        if q < p {
                            assert(out@[q] == y);
                        } else {
                            assert(out@[q + 1] == y);
                        }
                    }
                }
            }
            assert forall|i: int, j: int| 0 <= i < j < out@.len() implies ranks_before(
                keys@,
                #[trigger] out@[i],
                #[trigger] out@[j],
            ) by {
                if j < p {
                    assert(old_out[i] == out@[i] && old_out[j] == out@[j]);
                } else if j == p {
                    assert(out@[i] == old_out[i]);
                } else if i == p {
                    assert(out@[j] == old_out[j - 1]);
                    if j - 1 > p {
                        assert(ranks_before(keys@, old_out[p as int], old_out[j - 1]));
                    }
                } else if i < p {
                    assert(out@[i] == old_out[i] && out@[j] == old_out[j - 1]);
                } else {
                    assert(out@[i] == old_out[i - 1] && out@[j] == old_out[j - 1]);
                }
            }
        }
    }
    assert(idxs@.take(m as int) =~= idxs@);
    proof {
        lemma_ranked_by_key(keys@, out@);
    }
    out
}

/// Ranks every prediction `0..keys.len()` by descending score key, ties by index.
pub fn rank_by_score(keys: &Vec<u32>) -> (r: Vec<usize>)
    ensures
        is_ranking_of(keys@, all_indices(keys@.len()), r@),
        forall|i: int| 0 <= i < r.len() ==> #[trigger] r@[i] < keys.len(),
        forall|i: int, j: int|
            0 <= i < j < r.len() ==> keys@[#[trigger] r@[i] as int] >= keys@[#[trigger] r@[j] as int]
                && (keys@[r@[i] as int] == keys@[r@[j] as int] ==> r@[i] < r@[j]),
{
    let n = keys.len();
    let mut idxs: Vec<usize> = Vec::new();
    for i in 0..n
        invariant
            n == keys.len(),
            idxs@ =~= all_indices(i as nat),
    {
        idxs.push(i);
    }
    assert(idxs@.no_duplicates());
    sort_by_score(keys, &idxs)
}

/// The positions at which `mask` holds, in increasing order.
pub open spec fn passing(mask: Seq<bool>) -> Seq<usize>
    decreases mask.len(),
{
    if mask.len() == 0 {
        Seq::empty()
    } else if mask.last() {
        passing(mask.drop_last()).push((mask.len() - 1) as usize)
    } else {
        passing(mask.drop_last())
    }
}

proof fn lemma_passing_props(mask: Seq<bool>)
    requires
        mask.len() <= usize::MAX + 1,
    ensures
        forall|i: int, j: int| 0 <= i < j < passing(mask).len() ==> #[trigger] passing(mask)[i] < #[trigger] passing(mask)[j],
        forall|x: usize| #[trigger] passing(mask).contains(x) <==> (x < mask.len() && mask[x as int]),
        forall|i: int| 0 <= i < passing(mask).len() ==> #[trigger] passing(mask)[i] < mask.len(),
    decreases mask.len(),
{
    if mask.len() > 0 {
        let t = mask.drop_last();
        lemma_passing_props(t);
        let p = passing(t);
        if mask.last() {
            let np = p.push((mask.len() - 1) as usize);
            assert forall|x: usize| #[trigger] np.contains(x) <==> (x < mask.len() && mask[x as int]) by {
                if np.contains(x) && x != mask.len() - 1 {
                    let q = choose|q: int| 0 <= q < np.len() && np[q] == x;
                    assert(p[q] == x);
                    assert(p.contains(x));
                }
                if x < mask.len() && mask[x as int] && x != mask.len() - 1 {
                    assert(t[x as int] == mask[x as int]);
                    assert(p.contains(x));
                    let q = choose|q: int| 0 <= q < p.len() && p[q] == x;
                    assert(np[q] == x);
                }
                if x == mask.len() - 1 {
                    assert(np[p.len() as int] == x);
                }
            }
        } else {
            assert forall|x: usize| #[trigger] p.contains(x) <==> (x < mask.len() && mask[x as int]) by {
                if x < mask.len() - 1 {
                    assert(t[x as int] == mask[x as int]);
                }
            }
        }
    }
}

/// An increasing sequence that holds exactly the marked positions is `passing(mask)`.
proof fn lemma_passing_is(mask: Seq<bool>, s: Seq<usize>)
    requires
        mask.len() <= usize::MAX + 1,
        forall|i: int, j: int| 0 <= i < j < s.len() ==> #[trigger] s[i] < #[trigger] s[j],
        forall|x: usize| #[trigger] s.contains(x) <==> (x < mask.len() && mask[x as int]),
    ensures
        s == passing(mask),
{
    lemma_passing_props(mask);
    lemma_increasing_unique(s, passing(mask));
}

/// Two increasing sequences with the same elements are equal.
proof fn lemma_increasing_unique(a: Seq<usize>, b: Seq<usize>)
    requires
        forall|i: int, j: int| 0 <= i < j < a.len() ==> #[trigger] a[i] < #[trigger] a[j],
        forall|i: int, j: int| 0 <= i < j < b.len() ==> #[trigger] b[i] < #[trigger] b[j],
        forall|x: usize| #[trigger] a.contains(x) <==> b.contains(x),
    ensures
        a == b,
    decreases a.len() + b.len(),
{
    if a.len() == 0 {
        if b.len() > 0 {
            assert(b.contains(b[0]));
            assert(a.contains(b[0]));
        }
        assert(a =~= b);
    } else if b.len() == 0 {
        assert(a.contains(a[0]));
        assert(b.contains(a[0]));
    } else {
        assert(a.contains(a[0]));
        assert(b.contains(b[0]));
        assert(a.contains(b[0]));
        assert(b.contains(a[0]));
        let qa = choose|q: int| 0 <= q < a.len() && a[q] == b[0];
        let qb = choose|q: int| 0 <= q < b.len() && b[q] == a[0];
        assert(a[0] == b[0]) by {
            if qa > 0 {
                assert(a[0] < a[qa]);
            }
            if qb > 0 {
                assert(b[0] < b[qb]);
            }
        }
        let ta = a.drop_first();
        let tb = b.drop_first();
        assert forall|i: int, j: int| 0 <= i < j < ta.len() implies #[trigger] ta[i] < #[trigger] ta[j] by {
            assert(a[i + 1] < a[j + 1]);
        }
        assert forall|i: int, j: int| 0 <= i < j < tb.len() implies #[trigger] tb[i] < #[trigger] tb[j] by {
            assert(b[i + 1] < b[j + 1]);
        }
        assert forall|x: usize| #[trigger] ta.contains(x) <==> tb.contains(x) by {
            if ta.contains(x) {
                let q = choose|q: int| 0 <= q < ta.len() && ta[q] == x;
                assert(a[q + 1] == x && a[0] < a[q + 1]);
                assert(a.contains(x));
                assert(b.contains(x));
                let r = choose|r: int| 0 <= r < b.len() && b[r] == x;
                assert(r != 0);
                assert(tb[r - 1] == x);
            }
            if tb.contains(x) {
                let q = choose|q: int| 0 <= q < tb.len() && tb[q] == x;
                assert(b[q + 1] == x && b[0] < b[q + 1]);
                assert(b.contains(x));
                assert(a.contains(x));
                let r = choose|r: int| 0 <= r < a.len() && a[r] == x;
                assert(r != 0);
                assert(ta[r - 1] == x);
            }
        }
        lemma_increasing_unique(ta, tb);
        assert(a =~= seq![a[0]] + ta);
        assert(b =~= seq![b[0]] + tb);
    }
}

/// The positions at which `mask` holds, in increasing order.
pub fn mask_indices(mask: &Vec<bool>) -> (r: Vec<usize>)
    ensures
        r@ == passing(mask@),
        forall|i: int, j: int| 0 <= i < j < r.len() ==> #[trigger] r@[i] < #[trigger] r@[j],
        forall|x: usize| #[trigger] r@.contains(x) <==> (x < mask.len() && mask@[x as int]),
{
    let mut r: Vec<usize> = Vec::new();
    let n = mask.len();
    for i in 0..n
        invariant
            n == mask.len(),
            forall|a: int, b: int| 0 <= a < b < r.len() ==> #[trigger] r@[a] < #[trigger] r@[b],
            forall|a: int| 0 <= a < r.len() ==> #[trigger] r@[a] < i,
            forall|x: usize| #[trigger] r@.contains(x) <==> (x < i && mask@[x as int]),
    {
        let ghost old_r = r@;
        if mask[i] {
            r.push(i);
            assert forall|x: usize| #[trigger] r@.contains(x) <==> (x < i + 1 && mask@[x as int]) by {
                if x == i {
                    assert(r@[old_r.len() as int] == x);
                } else if r@.contains(x) {
                    let q = choose|q: int| 0 <= q < r@.len() && r@[q] == x;
                    assert(old_r[q] == x);
                    assert(old_r.contains(x));
                } else if x < i && mask@[x as int] {
                    assert(old_r.contains(x));
                    let q = choose|q: int| 0 <= q < old_r.len() && old_r[q] == x;
                    assert(r@[q] == x);
                }
            }
        }
    }
    proof {
        lemma_passing_is(mask@, r@);
    }
    r
}

/// The class of a detection: among the entries marked `valid` (those whose confidence is
/// a number), the one with the largest key, the last of them where several share it.
/// `None` when no entry is valid.
pub fn best_class(keys: &Vec<u32>, valid: &Vec<bool>) -> (r: Option<usize>)
    requires
        keys.len() == valid.len(),
    ensures
        r is None <==> forall|j: int| 0 <= j < valid.len() ==> !#[trigger] valid@[j],
        r matches Some(i) ==> {
            &&& i < keys.len()
            &&& valid@[i as int]
            &&& forall|j: int| 0 <= j < keys.len() && #[trigger] valid@[j] ==> keys@[j] <= keys@[i as int]
            &&& forall|j: int| i < j < keys.len() && #[trigger] valid@[j] ==> keys@[j] < keys@[i as int]
        },
{
    let mut best: Option<usize> = None;
    let n = keys.len();
    for k in 0..n
        invariant
            n == keys.len(),
            n == valid.len(),
            best is None <==> forall|j: int| 0 <= j < k ==> !#[trigger] valid@[j],
            best matches Some(i) ==> {
                &&& i < k
                &&& valid@[i as int]
                &&& forall|j: int| 0 <= j < k && #[trigger] valid@[j] ==> keys@[j] <= keys@[i as int]
                &&& forall|j: int| i < j < k && #[trigger] valid@[j] ==> keys@[j] < keys@[i as int]
            },
    {
        if valid[k] {
            match best {
                None => {
                    best = Some(k);
                },
                Some(i) => {
                    if keys[k] >= keys[i] {
                        best = Some(k);
                    }
                },
            }
        }
    }
    best
}


/// Law: a ranking is unique; two ranked sequences with the same elements are equal.
/// So the rankings that `sort_by_score` and `rank_by_score` promise pin their results.
pub proof fn lemma_ranking_unique(keys: Seq<u32>, a: Seq<usize>, b: Seq<usize>)
    requires
        is_ranked(keys, a),
        is_ranked(keys, b),
        forall|x: usize| #[trigger] a.contains(x) <==> b.contains(x),
    ensures
        a == b,
    decreases a.len() + b.len(),
{
    if a.len() == 0 {
        if b.len() > 0 {
            assert(b.contains(b[0]));
            assert(a.contains(b[0]));
        }
        assert(a =~= b);
    } else if b.len() == 0 {
        assert(a.contains(a[0]));
        assert(b.contains(a[0]));
    } else {
        assert(a.contains(a[0]));
        assert(b.contains(b[0]));
        assert(a.contains(b[0]));
        assert(b.contains(a[0]));
        let qa = choose|q: int| 0 <= q < a.len() && a[q] == b[0];
        let qb = choose|q: int| 0 <= q < b.len() && b[q] == a[0];
        assert(a[0] == b[0]) by {
            if qa > 0 && qb > 0 {
                assert(ranks_before(keys, a[0], a[qa]));
                assert(ranks_before(keys, b[0], b[qb]));
            }
        }
        let ta = a.drop_first();
        let tb = b.drop_first();
        assert forall|i: int, j: int| 0 <= i < j < ta.len() implies ranks_before(keys, #[trigger] ta[i], #[trigger] ta[j]) by {
            assert(ranks_before(keys, a[i + 1], a[j + 1]));
        }
        assert forall|i: int, j: int| 0 <= i < j < tb.len() implies ranks_before(keys, #[trigger] tb[i], #[trigger] tb[j]) by {
            assert(ranks_before(keys, b[i + 1], b[j + 1]));
        }
        assert forall|x: usize| #[trigger] ta.contains(x) <==> tb.contains(x) by {
            if ta.contains(x) {
                let q = choose|q: int| 0 <= q < ta.len() && ta[q] == x;
                assert(a[q + 1] == x && ranks_before(keys, a[0], a[q + 1]));
                assert(a.contains(x));
                assert(b.contains(x));
                let r = choose|r: int| 0 <= r < b.len() && b[r] == x;
                assert(r != 0);
                assert(tb[r - 1] == x);
            }
            if tb.contains(x) {
                let q = choose|q: int| 0 <= q < tb.len() && tb[q] == x;
                assert(b[q + 1] == x && ranks_before(keys, b[0], b[q + 1]));
                assert(b.contains(x));
                assert(a.contains(x));
                let r = choose|r: int| 0 <= r < a.len() && a[r] == x;
                assert(r != 0);
                assert(ta[r - 1] == x);
            }
        }
        lemma_ranking_unique(keys, ta, tb);
        assert(a =~= seq![a[0]] + ta);
        assert(b =~= seq![b[0]] + tb);
    }
}

/// Law: cutting a ranking after `k` entries keeps the `k` best: as many as there are,
/// up to `k`, still ranked, each from the pool, and each ranked before every entry of
/// the pool that was cut off.
pub proof fn lemma_truncated_ranking_keeps_best(
    keys: Seq<u32>,
    pool: Seq<usize>,
    order: Seq<usize>,
    k: nat,
)
    requires
        is_ranking_of(keys, pool, order),
    ensures
        truncated(order, k).len() == if k < pool.len() { k } else { pool.len() },
        is_ranked(keys, truncated(order, k)),
        forall|x: usize| #[trigger] truncated(order, k).contains(x) ==> pool.contains(x),
        forall|x: usize, i: int|
            #[trigger] pool.contains(x) && !truncated(order, k).contains(x) && 0 <= i < truncated(order, k).len()
                ==> ranks_before(keys, #[trigger] truncated(order, k)[i], x),
{
    let t = truncated(order, k);
    assert forall|i: int, j: int| 0 <= i < j < t.len() implies ranks_before(keys, #[trigger] t[i], #[trigger] t[j]) by {
        assert(t[i] == order[i] && t[j] == order[j]);
    }
    assert forall|x: usize| #[trigger] t.contains(x) implies pool.contains(x) by {
        let q = choose|q: int| 0 <= q < t.len() && t[q] == x;
        assert(order[q] == x);
        assert(order.contains(x));
    }
    assert forall|x: usize, i: int|
        #[trigger] pool.contains(x) && !t.contains(x) && 0 <= i < t.len() implies ranks_before(keys, #[trigger] t[i], x) by {
        assert(order.contains(x));
        let q = choose|q: int| 0 <= q < order.len() && order[q] == x;
        if q < t.len() {
            assert(t[q] == x);
        }
        assert(t[i] == order[i]);
    }
}

/// Law: the ranking order compares the score keys as whole 32-bit numbers: a higher
/// key always ranks first, and only equal keys fall back to the index, lower first.
pub proof fn lemma_ranks_before_by_key(keys: Seq<u32>, a: usize, b: usize)
    requires
        a != b,
    ensures
        keys[a as int] > keys[b as int] ==> ranks_before(keys, a, b) && !ranks_before(keys, b, a),
        keys[a as int] == keys[b as int] ==> (ranks_before(keys, a, b) <==> a < b),
        ranks_before(keys, a, b) || ranks_before(keys, b, a),
{
}

/// Law: in a ranked sequence the score keys never increase, and among equal keys the
/// indices increase.
pub proof fn lemma_ranked_by_key(keys: Seq<u32>, s: Seq<usize>)
    requires
        is_ranked(keys, s),
    ensures
        forall|i: int, j: int|
            0 <= i < j < s.len() ==> keys[#[trigger] s[i] as int] >= keys[#[trigger] s[j] as int]
                && (keys[s[i] as int] == keys[s[j] as int] ==> s[i] < s[j]),
{
    assert forall|i: int, j: int| 0 <= i < j < s.len() implies keys[#[trigger] s[i] as int]
        >= keys[#[trigger] s[j] as int] && (keys[s[i] as int] == keys[s[j] as int] ==> s[i] < s[j]) by {
        assert(ranks_before(keys, s[i], s[j]));
    }
}

} // verus!
