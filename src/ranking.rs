use vstd::prelude::*;

use crate::score::Score;

verus! {

/// Position `a` comes before position `b` in the ranking of `scores`: the
/// higher rank first, and between equal ranks the earlier position first.
pub open spec fn precedes(scores: Seq<Score>, a: int, b: int) -> bool {
    scores[a].rank() > scores[b].rank() || (scores[a].rank() == scores[b].rank() && a < b)
}

/// The smaller of `k` and `n`.
pub open spec fn min_of(k: int, n: int) -> int {
    if k < n {
        k
    } else {
        n
    }
}

/// `pos` lists, best first, the `min(k, n)` positions among the first `n` of
/// `scores` that come first in the ranking.
pub open spec fn is_top_among(scores: Seq<Score>, n: int, k: int, pos: Seq<usize>) -> bool {
    &&& pos.len() == min_of(k, n)
    &&& forall|i: int| 0 <= i < pos.len() ==> #[trigger] pos[i] < n
    &&& forall|i: int, j: int|
        0 <= i < j < pos.len() ==> precedes(scores, #[trigger] pos[i] as int, #[trigger] pos[j] as int)
    &&& forall|q: int, i: int|
        0 <= q < n && !pos.contains(q as usize) && 0 <= i < pos.len() ==> #[trigger] precedes(
            scores,
            pos[i] as int,
            q,
        )
}

/// `pos` lists, best first, the `min(k, scores.len())` positions of `scores`
/// that come first in the ranking.
pub open spec fn is_top(scores: Seq<Score>, k: int, pos: Seq<usize>) -> bool {
    is_top_among(scores, scores.len() as int, k, pos)
}

/// The positions of the `k` best scores, best first: the only sequence that
/// satisfies `is_top` (see `lemma_top_unique`).
pub open spec fn top_positions(scores: Seq<Score>, k: int) -> Seq<usize> {
    choose|pos: Seq<usize>| is_top(scores, k, pos)
}

/// No position can come first in one ranking of the top `k` and second in
/// another that agrees with it before `i`.
proof fn lemma_top_no_earlier(scores: Seq<Score>, k: int, a: Seq<usize>, b: Seq<usize>, i: int)
    requires
        is_top(scores, k, a),
        is_top(scores, k, b),
        0 <= i < a.len(),
        forall|l: int| 0 <= l < i ==> a[l] == b[l],
    ensures
        a[i] != b[i] ==> !precedes(scores, a[i] as int, b[i] as int),
{
    let x = a[i];
    let y = b[i];
    if x != y && precedes(scores, x as int, y as int) {
        if b.contains(x) {
            let l = choose|l: int| 0 <= l < b.len() && b[l] == x;
            if l < i {
                assert(a[l] == x);
                assert(precedes(scores, a[l] as int, a[i] as int));
            } else {
                assert(precedes(scores, b[i] as int, b[l] as int));
            }
        } else {
            assert(precedes(scores, b[i] as int, x as int));
        }
    }
}

/// Two sequences that both list the top `k` positions agree before `m`.
proof fn lemma_top_prefix_agree(scores: Seq<Score>, k: int, a: Seq<usize>, b: Seq<usize>, m: int)
    requires
        is_top(scores, k, a),
        is_top(scores, k, b),
        0 <= m <= a.len(),
    ensures
        forall|l: int| 0 <= l < m ==> a[l] == b[l],
    decreases m,
{
    if m > 0 {
        lemma_top_prefix_agree(scores, k, a, b, m - 1);
        lemma_top_no_earlier(scores, k, a, b, m - 1);
        lemma_top_no_earlier(scores, k, b, a, m - 1);
    }
}

/// There is one ranking of the top `k` positions: ties between equal scores
/// are broken by position, so the result leaves nothing open.
pub proof fn lemma_top_unique(scores: Seq<Score>, k: int, a: Seq<usize>, b: Seq<usize>)
    requires
        is_top(scores, k, a),
        is_top(scores, k, b),
    ensures
        a == b,
{
    lemma_top_prefix_agree(scores, k, a, b, a.len() as int);
    assert(a =~= b);
}

/// Adding position `p` to a ranking of the first `p` positions, at the place
/// `j` below every position that ranks at least as high, keeps a ranking of
/// the first `p + 1`; the last one falls out where there are more than `k`.
proof fn lemma_insert_step(scores: Seq<Score>, k: int, p: int, old: Seq<usize>, j: int)
    requires
        0 <= p < scores.len(),
        p < usize::MAX,
        is_top_among(scores, p, k, old),
        old.len() < k ==> forall|q: usize| q < p ==> #[trigger] old.contains(q),
        0 <= j <= old.len(),
        j < k,
        forall|i: int| 0 <= i < j ==> scores[old[i] as int].rank() >= scores[p].rank(),
        j < old.len() ==> scores[old[j] as int].rank() < scores[p].rank(),
    ensures
        old.len() < k ==> is_top_among(scores, p + 1, k, old.insert(j, p as usize)),
        old.len() < k ==> forall|q: usize|
            q < p + 1 ==> #[trigger] old.insert(j, p as usize).contains(q),
        old.len() >= k ==> is_top_among(scores, p + 1, k, old.insert(j, p as usize).subrange(0, k)),
{
    let ins = old.insert(j, p as usize);
    let new = if old.len() < k {
        ins
    } else {
        ins.subrange(0, k)
    };
    old.insert_ensures(j, p as usize);
    assert forall|l: int| 0 <= l < ins.len() implies #[trigger] ins[l] == (if l < j {
        old[l]
    } else if l == j {
        p as usize
    } else {
        old[l - 1]
    }) by {
        if l > j {
            assert(ins[(l - 1) + 1] == old[l - 1]);
        }
    }
    // Everything at or after `j` ranks strictly below `p`.
    assert forall|l: int| j <= l < old.len() implies scores[old[l] as int].rank() < scores[p].rank() by {
        if l > j {
            assert(precedes(scores, old[j] as int, old[l] as int));
        }
    }
    // The inserted sequence is ordered.
    assert forall|a: int, b: int| 0 <= a < b < ins.len() implies precedes(
        scores,
        #[trigger] ins[a] as int,
        #[trigger] ins[b] as int,
    ) by {
        if b < j {
            assert(precedes(scores, old[a] as int, old[b] as int));
        } else if b == j {
            assert(old[a] < p);
        } else if a < j {
            assert(precedes(scores, old[a] as int, old[b - 1] as int));
        } else if a == j {
        } else {
            assert(precedes(scores, old[a - 1] as int, old[b - 1] as int));
        }
    }
    assert forall|l: int| 0 <= l < new.len() implies #[trigger] new[l] == ins[l] by {}
    assert forall|a: int, b: int| 0 <= a < b < new.len() implies precedes(
        scores,
        #[trigger] new[a] as int,
        #[trigger] new[b] as int,
    ) by {
        assert(precedes(scores, ins[a] as int, ins[b] as int));
    }
    assert forall|i: int| 0 <= i < new.len() implies #[trigger] new[i] < p + 1 by {
        assert(new[i] == ins[i]);
        if i != j {
            if i < j {
                assert(old[i] < p);
            } else {
                assert(old[i - 1] < p);
            }
        }
    }
    assert(new[j] == p as usize);
    // What the old ranking held is still held, but for the last one where it falls out.
    assert forall|x: usize| #[trigger] old.contains(x) && !new.contains(x) implies old.len() == k && x
        == old[k - 1] && forall|i: int| 0 <= i < new.len() ==> precedes(scores, new[i] as int, x as int) by {
        let l = choose|l: int| 0 <= l < old.len() && old[l] == x;
        if l < j {
            assert(new[l] == x);
        } else if l + 1 < new.len() {
            assert(new[l + 1] == x);
        } else {
            assert(old.len() == k);
            assert(l == k - 1);
            assert(ins[k] == x);
            assert forall|i: int| 0 <= i < new.len() implies precedes(scores, new[i] as int, x as int) by {
                assert(precedes(scores, ins[i] as int, ins[k] as int));
            }
        }
    }
    assert forall|q: int, i: int|
        0 <= q < p + 1 && !new.contains(q as usize) && 0 <= i < new.len() implies #[trigger] precedes(
        scores,
        new[i] as int,
        q,
    ) by {
        assert(q != p);
        if old.contains(q as usize) {
        } else {
            assert(old.len() == k) by {
                if old.len() < k {
                    assert(old.contains(q as usize));
                }
            }
            if i == j {
                assert(precedes(scores, old[k - 1] as int, q));
                assert(scores[old[k - 1] as int].rank() < scores[p].rank());
            } else if i < j {
                assert(precedes(scores, old[i] as int, q));
            } else {
                assert(precedes(scores, old[i - 1] as int, q));
            }
        }
    }
    if old.len() < k {
        assert forall|q: usize| q < p + 1 implies #[trigger] new.contains(q) by {
            if q == p {
                assert(new[j] == q);
            } else {
                assert(old.contains(q));
                let l = choose|l: int| 0 <= l < old.len() && old[l] == q;
                if l < j {
                    assert(new[l] == q);
                } else {
                    assert(new[l + 1] == q);
                }
            }
        }
    }
}

/// Where `p` ranks below all of a full ranking of the first `p` positions,
/// that ranking is also one of the first `p + 1`.
proof fn lemma_skip_step(scores: Seq<Score>, k: int, p: int, old: Seq<usize>)
    requires
        0 <= p < scores.len(),
        is_top_among(scores, p, k, old),
        old.len() == k,
        forall|i: int| 0 <= i < old.len() ==> scores[old[i] as int].rank() >= scores[p].rank(),
    ensures
        is_top_among(scores, p + 1, k, old),
{
    assert forall|q: int, i: int|
        0 <= q < p + 1 && !old.contains(q as usize) && 0 <= i < old.len() implies #[trigger] precedes(
        scores,
        old[i] as int,
        q,
    ) by {
        if q == p {
            assert(old[i] < p);
        }
    }
}

/// How many leading positions of `pos` have a score ranked at least `key`.
pub open spec fn count_leading_at_least(scores: Seq<Score>, pos: Seq<usize>, key: int) -> nat
    decreases pos.len(),
{
    if pos.len() == 0 || scores[pos[0] as int].rank() < key {
        0
    } else {
        1 + count_leading_at_least(scores, pos.drop_first(), key)
    }
}

proof fn lemma_count_leading(scores: Seq<Score>, pos: Seq<usize>, key: int)
    ensures
        count_leading_at_least(scores, pos, key) <= pos.len(),
        forall|i: int|
            0 <= i < count_leading_at_least(scores, pos, key) ==> scores[#[trigger] pos[i] as int].rank()
                >= key,
        count_leading_at_least(scores, pos, key) < pos.len() ==> scores[pos[count_leading_at_least(
            scores,
            pos,
            key,
        ) as int] as int].rank() < key,
    decreases pos.len(),
{
    if pos.len() > 0 && scores[pos[0] as int].rank() >= key {
        let rest = pos.drop_first();
        lemma_count_leading(scores, rest, key);
        assert forall|i: int| 0 < i < pos.len() implies #[trigger] pos[i] == rest[i - 1] by {}
    }
}

/// For every `k`, some sequence lists the top `k` positions among the
/// first `n`; where it is shorter than `k` it holds all of them.
proof fn lemma_top_among_exists(scores: Seq<Score>, n: int, k: int)
    requires
        0 <= n <= scores.len(),
        scores.len() <= usize::MAX,
        k >= 0,
    ensures
        exists|pos: Seq<usize>|
            #![trigger is_top_among(scores, n, k, pos)]
            is_top_among(scores, n, k, pos) && (pos.len() < k ==> forall|q: usize|
                q < n ==> #[trigger] pos.contains(q)),
    decreases n,
{
    if n == 0 {
        let e = Seq::<usize>::empty();
        assert(is_top_among(scores, 0, k, e));
    } else {
        let p = n - 1;
        lemma_top_among_exists(scores, p, k);
        let old = choose|pos: Seq<usize>|
            #![trigger is_top_among(scores, p, k, pos)]
            is_top_among(scores, p, k, pos) && (pos.len() < k ==> forall|q: usize|
                q < p ==> #[trigger] pos.contains(q));
        let key = scores[p].rank();
        let j = count_leading_at_least(scores, old, key) as int;
        lemma_count_leading(scores, old, key);
        if j < k {
            lemma_insert_step(scores, k, p, old, j);
            if old.len() < k {
                let new = old.insert(j, p as usize);
                assert(is_top_among(scores, n, k, new));
            } else {
                let new = old.insert(j, p as usize).subrange(0, k);
                assert(is_top_among(scores, n, k, new));
            }
        } else {
            lemma_skip_step(scores, k, p, old);
            assert(is_top_among(scores, n, k, old));
        }
    }
}

/// `top_positions` does list the top `k` positions: such a list always
/// exists.
pub proof fn lemma_top_positions_is_top(scores: Seq<Score>, k: int)
    requires
        scores.len() <= usize::MAX,
        k >= 0,
    ensures
        is_top(scores, k, top_positions(scores, k)),
{
    lemma_top_among_exists(scores, scores.len() as int, k);
    let w = choose|pos: Seq<usize>|
        #![trigger is_top_among(scores, scores.len() as int, k, pos)]
        is_top_among(scores, scores.len() as int, k, pos) && (pos.len() < k ==> forall|q: usize|
            q < scores.len() ==> #[trigger] pos.contains(q));
    assert(is_top(scores, k, w));
}

/// The positions of the `k` best scores, best first; between equal scores
/// the earlier position first. NaN scores rank below all others.
pub fn top_k_positions(scores: &Vec<Score>, k: usize) -> (r: Vec<usize>)
    ensures
        is_top(scores@, k as int, r@),
        r@ == top_positions(scores@, k as int),
{
    let n = scores.len();
    let mut buf: Vec<usize> = Vec::new();
    let mut p: usize = 0;
    while p < n
        invariant
            n == scores@.len(),
            p <= n,
            is_top_among(scores@, p as int, k as int, buf@),
            buf@.len() < k ==> forall|q: usize| q < p ==> #[trigger] buf@.contains(q),
        decreases n - p,
    {
        let key = scores[p].rank_key();
        let mut j: usize = 0;
        while j < buf.len() && scores[buf[j]].rank_key() >= key
            invariant
                n == scores@.len(),
                p < n,
                key as int == scores@[p as int].rank(),
                is_top_among(scores@, p as int, k as int, buf@),
                j <= buf@.len(),
                forall|i: int| 0 <= i < j ==> scores@[buf@[i] as int].rank() >= scores@[p as int].rank(),
            decreases buf@.len() - j,
        {
            j += 1;
        }
        if j < k {
            proof {
                lemma_insert_step(scores@, k as int, p as int, buf@, j as int);
            }
            let full = buf.len() == k;
            buf.insert(j, p);
            if full {
                buf.pop();
                assert(buf@ =~= buf@.subrange(0, k as int));
            }
        } else {
            proof {
                lemma_skip_step(scores@, k as int, p as int, buf@);
            }
        }
        p += 1;
    }
    proof {
        lemma_top_unique(scores@, k as int, buf@, top_positions(scores@, k as int));
    }
    buf
}

} // verus!
