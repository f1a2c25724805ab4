use vstd::prelude::*;

use crate::ranking::{
    is_top, lemma_top_positions_is_top, lemma_top_unique, min_of, precedes, top_k_positions,
    top_positions,
};
use crate::score::Score;

verus! {

/// The embedding of the first entry, in insertion order, whose id is `id`.
pub open spec fn lookup<E>(entries: Seq<(u32, E)>, id: u32) -> Option<E>
    decreases entries.len(),
{
    if entries.len() == 0 {
        None
    } else if entries[0].0 == id {
        Some(entries[0].1)
    } else {
        lookup(entries.drop_first(), id)
    }
}

/// Appending an entry leaves every lookup that already succeeded as it
/// was; a lookup that failed now finds the new entry where its id matches.
pub proof fn lemma_lookup_push<E>(entries: Seq<(u32, E)>, id: u32, e: (u32, E))
    ensures
        lookup(entries.push(e), id) == (match lookup(entries, id) {
            Some(v) => Some(v),
            None => if e.0 == id {
                Some(e.1)
            } else {
                None
            },
        }),
    decreases entries.len(),
{
    let pushed = entries.push(e);
    if entries.len() == 0 {
        assert(pushed.drop_first() =~= Seq::<(u32, E)>::empty());
    } else {
        assert(pushed.drop_first() =~= entries.drop_first().push(e));
        lemma_lookup_push(entries.drop_first(), id, e);
    }
}

/// After `add_vector(k, v)`, looking up `k` gives `v`, unless an earlier
/// entry with id `k` shadows it, in which case that entry's embedding.
pub proof fn lemma_insert_then_lookup<E>(entries: Seq<(u32, E)>, k: u32, v: E)
    ensures
        lookup(entries, k) is None ==> lookup(entries.push((k, v)), k) == Some(v),
        lookup(entries, k) is Some ==> lookup(entries.push((k, v)), k) == lookup(entries, k),
{
    lemma_lookup_push(entries, k, (k, v));
}

/// A lookup of an id that no entry has finds nothing; in particular, a
/// lookup in the empty store finds nothing.
pub proof fn lemma_lookup_absent<E>(entries: Seq<(u32, E)>, id: u32)
    ensures
        (forall|i: int| 0 <= i < entries.len() ==> (#[trigger] entries[i]).0 != id) <==> lookup(
            entries,
            id,
        ) is None,
        lookup(Seq::<(u32, E)>::empty(), id) is None,
    decreases entries.len(),
{
    if entries.len() > 0 {
        let rest = entries.drop_first();
        lemma_lookup_absent(rest, id);
        assert forall|l: int| 0 <= l < rest.len() implies #[trigger] rest[l] == entries[l + 1] by {}
        assert forall|i: int| 0 < i < entries.len() implies #[trigger] entries[i] == rest[i - 1] by {}
    }
}

/// The result of a search: the id and score of each of the `k` best
/// entries, best first.
pub open spec fn ranked<E>(entries: Seq<(u32, E)>, scores: Seq<Score>, k: int) -> Seq<(u32, Score)> {
    top_positions(scores, k).map_values(|p: usize| (entries[p as int].0, scores[p as int]))
}

/// A search returns `min(k, n)` results for a store of `n` entries, ordered
/// from the highest score to the lowest.
pub proof fn lemma_ranked_size_and_order<E>(entries: Seq<(u32, E)>, scores: Seq<Score>, k: int)
    requires
        scores.len() == entries.len(),
        entries.len() <= usize::MAX,
        k >= 0,
    ensures
        ranked(entries, scores, k).len() == min_of(k, entries.len() as int),
        forall|i: int, j: int|
            0 <= i < j < ranked(entries, scores, k).len() ==> (#[trigger] ranked(entries, scores, k)[i]).1.rank()
                >= (#[trigger] ranked(entries, scores, k)[j]).1.rank(),
{
    lemma_top_positions_is_top(scores, k);
    let pos = top_positions(scores, k);
    assert forall|i: int, j: int| 0 <= i < j < pos.len() implies (#[trigger] ranked(
        entries,
        scores,
        k,
    )[i]).1.rank() >= (#[trigger] ranked(entries, scores, k)[j]).1.rank() by {
        assert(precedes(scores, pos[i] as int, pos[j] as int));
    }
}

/// Searching is deterministic, ties included: every list of the top `k`
/// positions gives the same results, since equal scores keep insertion
/// order.
pub proof fn lemma_ranked_determined<E>(
    entries: Seq<(u32, E)>,
    scores: Seq<Score>,
    k: int,
    pos: Seq<usize>,
)
    requires
        scores.len() == entries.len(),
        is_top(scores, k, pos),
    ensures
        pos.map_values(|p: usize| (entries[p as int].0, scores[p as int])) == ranked(entries, scores, k),
{
    lemma_top_unique(scores, k, pos, top_positions(scores, k));
}

/// An append-only store of `(id, embedding)` entries, kept in insertion
/// order. Ids need not be unique.
pub struct VectorDB<E> {
    vectors: Vec<(u32, E)>,
}

impl<E> View for VectorDB<E> {
    type V = Seq<(u32, E)>;

    closed spec fn view(&self) -> Seq<(u32, E)> {
        self.vectors@
    }
}

impl<E> VectorDB<E> {
    /// An empty store.
    pub fn new() -> (r: VectorDB<E>)
        ensures
            r@ == Seq::<(u32, E)>::empty(),
    {
        VectorDB { vectors: Vec::new() }
    }

    /// Appends the entry `(id, vector)`.
    pub fn add_vector(&mut self, id: u32, vector: E)
        ensures
            final(self)@ == old(self)@.push((id, vector)),
    {
        self.vectors.push((id, vector));
    }

    /// The embedding of the first entry whose id is `id`, if any.
    pub fn get_vector(&self, id: u32) -> (r: Option<&E>)
        ensures
            match r {
                Some(v) => lookup(self@, id) == Some(*v),
                None => lookup(self@, id) is None,
            },
            r is None <==> forall|i: int| 0 <= i < self@.len() ==> (#[trigger] self@[i]).0 != id,
    {
        let n = self.vectors.len();
        let mut i: usize = 0;
        proof {
            assert(self@.subrange(0, n as int) =~= self@);
        }
        while i < n
            invariant
                n == self@.len(),
                i <= n,
                lookup(self@, id) == lookup(self@.subrange(i as int, n as int), id),
                forall|l: int| 0 <= l < i ==> (#[trigger] self@[l]).0 != id,
            decreases n - i,
        {
            proof {
                let rest = self@.subrange(i as int, n as int);
                assert(rest.drop_first() =~= self@.subrange(i + 1, n as int));
            }
            if self.vectors[i].0 == id {
                return Some(&self.vectors[i].1);
            }
            i += 1;
        }
        proof {
            assert(self@.subrange(n as int, n as int).len() == 0);
        }
        None
    }

    /// The number of entries.
    pub fn len(&self) -> (r: usize)
        ensures
            r == self@.len(),
    {
        self.vectors.len()
    }

    /// Whether the store holds no entry.
    pub fn is_empty(&self) -> (r: bool)
        ensures
            r == (self@.len() == 0),
    {
        self.vectors.len() == 0
    }

    /// The entries, in insertion order.
    pub fn entries(&self) -> (r: &Vec<(u32, E)>)
        ensures
            r@ == self@,
    {
        &self.vectors
    }

    /// The `top_k` entries that rank first by score, as `(id, score)` pairs,
    /// best first; `scores[i]` is the score of the `i`-th entry. Between
    /// equal scores the earlier entry comes first, and NaN scores rank last.
    pub fn search(&self, scores: &Vec<Score>, top_k: usize) -> (r: Vec<(u32, Score)>)
        requires
            scores@.len() == self@.len(),
        ensures
            r@ == ranked(self@, scores@, top_k as int),
            r@.len() == min_of(top_k as int, self@.len() as int),
            forall|i: int, j: int|
                0 <= i < j < r@.len() ==> (#[trigger] r@[i]).1.rank() >= (#[trigger] r@[j]).1.rank(),
    {
        let pos = top_k_positions(scores, top_k);
        let mut r: Vec<(u32, Score)> = Vec::new();
        let mut i: usize = 0;
        while i < pos.len()
            invariant
                pos@ == top_positions(scores@, top_k as int),
                is_top(scores@, top_k as int, pos@),
                scores@.len() == self@.len(),
                i <= pos@.len(),
                r@ =~= ranked(self@, scores@, top_k as int).subrange(0, i as int),
            decreases pos@.len() - i,
        {
            let p = pos[i];
            r.push((self.vectors[p].0, scores[p]));
            i += 1;
        }
        proof {
            assert(r@ =~= ranked(self@, scores@, top_k as int));
            assert forall|a: int, b: int| 0 <= a < b < r@.len() implies (#[trigger] r@[a]).1.rank()
                >= (#[trigger] r@[b]).1.rank() by {
                assert(precedes(scores@, pos@[a] as int, pos@[b] as int));
            }
        }
        r
    }
}

} // verus!
