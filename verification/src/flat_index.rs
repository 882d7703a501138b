//! Exhaustive (brute-force) index: every stored vector is scored against the
//! query and the `top_k` best are returned, best first.
//!
//! Scores are computed outside this crate (cosine similarity in `f32`) and
//! arrive here as order keys (see `score`): one key per stored vector, in
//! insertion order; a larger key is a better match.  A NaN score has a key
//! above every number's (see `score`), so it ranks ahead of every number;
//! the ranking never panics on one.
use vstd::prelude::*;

verus! {

/// Sequence `r` is ordered by non-increasing score.
pub open spec fn sorted_desc(r: Seq<(u64, u32)>) -> bool {
    forall|a: int, b: int| 0 <= a < b < r.len() ==> #[trigger] r[a].1 >= #[trigger] r[b].1
}

/// The smaller of two naturals.
pub open spec fn min_nat(a: nat, b: nat) -> nat {
    if a <= b {
        a
    } else {
        b
    }
}

/// `r` holds the `k` best-scored entries (or all of them, if there are
/// fewer), best first: entry `a` of `r` is `(ids[sel[a]], scores[sel[a]])`
/// for distinct positions `sel`, and every position left out scores no
/// better than the last entry of `r`.
pub open spec fn is_top_k(
    r: Seq<(u64, u32)>,
    ids: Seq<u64>,
    scores: Seq<u32>,
    k: nat,
    sel: Seq<int>,
) -> bool {
    &&& r.len() == sel.len()
    &&& r.len() == min_nat(k, scores.len())
    &&& forall|a: int|
        0 <= a < sel.len() ==> 0 <= #[trigger] sel[a] < scores.len() && r[a] == (
            ids[sel[a]],
            scores[sel[a]],
        )
    &&& forall|a: int, b: int| 0 <= a < b < sel.len() ==> #[trigger] sel[a] != #[trigger] sel[b]
    &&& sorted_desc(r)
    &&& forall|j: int|
        0 <= j < scores.len() && !sel.contains(j) && r.len() > 0 ==> #[trigger] scores[j]
            <= r[r.len() - 1].1
}

/// The `k` best-scored `(id, score)` pairs of `ids` and `scores` (taken
/// position by position), best first.
#[verifier::rlimit(60)]
pub fn select_top_k(ids: &[u64], scores: &[u32], k: usize) -> (r: Vec<(u64, u32)>)
    requires
        ids@.len() == scores@.len(),
    ensures
        exists|sel: Seq<int>| is_top_k(r@, ids@, scores@, k as nat, sel),
{
    let mut res: Vec<(u64, u32)> = Vec::new();
    let ghost mut sel: Seq<int> = Seq::empty();
    if k == 0 {
        assert(is_top_k(res@, ids@, scores@, k as nat, sel));
        return res;
    }
    let n = scores.len();
    let mut i: usize = 0;
    while i < n
        invariant
            n == scores@.len(),
            ids@.len() == n,
            k > 0,
            i <= n,
            res@.len() == sel.len(),
            res@.len() == min_nat(k as nat, i as nat),
            forall|a: int|
                0 <= a < sel.len() ==> 0 <= #[trigger] sel[a] < i && res@[a] == (
                    ids@[sel[a]],
                    scores@[sel[a]],
                ),
            forall|a: int, b: int| 0 <= a < b < sel.len() ==> #[trigger] sel[a] != #[trigger] sel[b],
            sorted_desc(res@),
            forall|j: int|
                0 <= j < i && !sel.contains(j) ==> res@.len() > 0 && #[trigger] scores@[j]
                    <= res@[res@.len() - 1].1,
            res@.len() < k ==> forall|j: int| 0 <= j < i ==> #[trigger] sel.contains(j),
        decreases n - i,
    {
        let s = scores[i];
        let mut p: usize = 0;
        while p < res.len() && res[p].1 >= s
            invariant
                p <= res@.len(),
                forall|q: int| 0 <= q < p ==> #[trigger] res@[q].1 >= s,
            decreases res@.len() - p,
        {
            p = p + 1;
        }
        let ghost old_res = res@;
        let ghost old_sel = sel;
        res.insert(p, (ids[i], s));
        proof {
            sel = sel.insert(p as int, i as int);
            old_sel.insert_ensures(p as int, i as int);
            old_res.insert_ensures(p as int, (ids@[i as int], s));
            assert forall|a: int, b: int| 0 <= a < b < res@.len() implies #[trigger] res@[a].1
                >= #[trigger] res@[b].1 by {
                if a == p && b > p {
                    assert(res@[b] == old_res[b - 1]);
                    assert(!(old_res[p as int].1 >= s));
                }
            }
            assert forall|a: int| 0 <= a < sel.len() implies 0 <= #[trigger] sel[a] < i + 1
                && res@[a] == (ids@[sel[a]], scores@[sel[a]]) by {
                if a < p {
                } else if a == p {
                } else {
                    assert(sel[a] == old_sel[a - 1]);
                }
            }
            assert forall|a: int, b: int| 0 <= a < b < sel.len() implies #[trigger] sel[a]
                != #[trigger] sel[b] by {
                if a == p {
                    assert(sel[b] == old_sel[b - 1]);
                } else if b == p {
                    assert(sel[a] == old_sel[a]);
                } else {
                    let a0 = if a < p { a } else { a - 1 };
                    let b0 = if b < p { b } else { b - 1 };
                    assert(sel[a] == old_sel[a0]);
                    assert(sel[b] == old_sel[b0]);
                }
            }
            assert forall|j: int| 0 <= j < i && !sel.contains(j) implies !old_sel.contains(j)
                && old_res.len() == k && #[trigger] scores@[j] <= old_res[old_res.len() - 1].1 by {
                if old_sel.contains(j) {
                    let a = old_sel.index_of(j);
                    let a1 = if a < p { a } else { a + 1 };
                    assert(sel[a1] == j);
                }
            }
            assert(sel[p as int] == i);
        }
        if res.len() > k {
            let ghost before = res@;
            let ghost sel_before = sel;
            let popped = res.pop();
            proof {
                sel = sel.drop_last();
                let last = res@.len() - 1;
                assert(old_res.len() == k);
                assert(res@[last] == before[last]);
                assert(res@[last].1 >= old_res[old_res.len() - 1].1) by {
                    if p == k {
                        assert(before[last] == old_res[last]);
                    } else if p == k - 1 {
                        assert(before[last].1 == s);
                        assert(!(old_res[p as int].1 >= s));
                    } else {
                        assert(before[last] == old_res[last - 1]);
                        assert(old_res[last - 1].1 >= old_res[last].1);
                    }
                }
                assert forall|j: int| 0 <= j < i + 1 && !sel.contains(j) implies res@.len() > 0
                    && #[trigger] scores@[j] <= res@[res@.len() - 1].1 by {
                    if sel_before.contains(j) {
                        let a = sel_before.index_of(j);
                        if a < sel.len() {
                            assert(sel[a] == j);
                        }
                        assert(a == sel.len());
                        assert(before[a].1 <= before[last].1);
                    } else {
                        assert(j != i);
                    }
                }
            }
        } else {
            proof {
                assert(old_res.len() < k);
                assert forall|j: int| 0 <= j < i + 1 implies sel.contains(j) by {
                    if j == i {
                        assert(sel[p as int] == i);
                    } else {
                        assert(old_sel.contains(j));
                        let a = old_sel.index_of(j);
                        let a1 = if a < p { a } else { a + 1 };
                        assert(sel[a1] == j);
                    }
                }
            }
        }
        i = i + 1;
    }
    assert(is_top_k(res@, ids@, scores@, k as nat, sel));
    res
}

/// Exhaustive index over vectors of `dim` components, stored one after the
/// other in a flat array of `f32` bit patterns.
pub struct FlatIndex {
    dim: usize,
    vectors: Vec<u32>,
    ids: Vec<u64>,
}

impl FlatIndex {
    /// The number of components of every stored vector.
    pub closed spec fn dim_view(&self) -> nat {
        self.dim as nat
    }

    /// The ids, in insertion order.
    pub closed spec fn ids_view(&self) -> Seq<u64> {
        self.ids@
    }

    /// The stored vectors, in insertion order.
    pub closed spec fn vectors_view(&self) -> Seq<Seq<u32>> {
        Seq::new(
            self.ids@.len(),
            |i: int| self.vectors@.subrange(i * self.dim, i * self.dim + self.dim),
        )
    }

    /// The flat array holds exactly one vector per id.
    pub closed spec fn wf(&self) -> bool {
        self.vectors@.len() == self.ids@.len() * self.dim
    }

    /// An empty index for vectors of `dim` components.
    pub fn new(dim: usize) -> (s: Self)
        ensures
            s.wf(),
            s.dim_view() == dim,
            s.ids_view() == Seq::<u64>::empty(),
            s.vectors_view() == Seq::<Seq<u32>>::empty(),
    {
        let s = FlatIndex { dim, vectors: Vec::new(), ids: Vec::new() };
        assert(s.vectors_view() =~= Seq::<Seq<u32>>::empty());
        s
    }

    /// Stores `vec` under `id` (an id may occur more than once).
    pub fn insert(&mut self, id: u64, vec: &[u32])
        requires
            old(self).wf(),
            vec@.len() == old(self).dim_view(),
        ensures
            final(self).wf(),
            final(self).dim_view() == old(self).dim_view(),
            final(self).ids_view() == old(self).ids_view().push(id),
            final(self).vectors_view() == old(self).vectors_view().push(vec@),
    {
        let ghost old_vectors = self.vectors@;
        let ghost n = self.ids@.len() as int;
        let ghost d = self.dim as int;
        self.ids.push(id);
        let mut i: usize = 0;
        while i < vec.len()
            invariant
                i <= vec@.len(),
                self.vectors@ == old_vectors + vec@.subrange(0, i as int),
                self.ids@ == old(self).ids@.push(id),
                self.dim == old(self).dim,
                old_vectors == old(self).vectors@,
                n == old(self).ids@.len(),
                d == old(self).dim,
            decreases vec@.len() - i,
        {
            self.vectors.push(vec[i]);
            assert(vec@.subrange(0, i + 1) == vec@.subrange(0, i as int).push(vec@[i as int]));
            i = i + 1;
        }
        proof {
            assert(vec@.subrange(0, vec@.len() as int) == vec@);
            assert((n + 1) * d == n * d + d) by (nonlinear_arith);
            let new_vectors = self.vectors@;
            assert(new_vectors == old_vectors + vec@);
            assert(old_vectors.len() == n * d);
            assert(self.ids@.len() == n + 1);
            assert forall|j: int| 0 <= j < n implies #[trigger] self.vectors_view()[j]
                == old(self).vectors_view()[j] by {
                assert(self.vectors_view()[j] == new_vectors.subrange(j * d, j * d + d));
                assert(old(self).vectors_view()[j] == old_vectors.subrange(j * d, j * d + d));
                assert((j + 1) * d == j * d + d) by (nonlinear_arith);
                assert(j * d + d <= n * d) by (nonlinear_arith)
                    requires
                        j < n,
                        0 <= d,
                ;
                assert(0 <= j * d) by (nonlinear_arith)
                    requires
                        0 <= j,
                        0 <= d,
                ;
                assert(self.vectors@.subrange(j * d, j * d + d) =~= old_vectors.subrange(
                    j * d,
                    j * d + d,
                ));
            }
            assert(self.vectors_view()[n] == new_vectors.subrange(n * d, n * d + d));
            assert(new_vectors.subrange(n * d, n * d + d) =~= vec@);
            assert(self.vectors_view() =~= old(self).vectors_view().push(vec@));
        }
    }

    /// The `top_k` best-scored entries, best first, given the score of every
    /// stored vector against the query (`scores[i]` for the `i`-th stored
    /// vector).  Entries are ranked by key, so a NaN score comes first.
    pub fn search(&self, scores: &[u32], top_k: usize) -> (r: Vec<(u64, u32)>)
        requires
            scores@.len() == self.ids_view().len(),
        ensures
            exists|sel: Seq<int>| is_top_k(r@, self.ids_view(), scores@, top_k as nat, sel),
    {
        select_top_k(self.ids.as_slice(), scores, top_k)
    }

    /// The `i`-th stored vector, for scoring it.
    pub fn vector(&self, i: usize) -> (v: &[u32])
        requires
            self.wf(),
            i < self.ids_view().len(),
        ensures
            v@ == self.vectors_view()[i as int],
    {
        // The length of the vector store is a `usize`, which bounds the
        // slice bounds below.
        let total = self.vectors.len();
        proof {
            assert(total == self.vectors@.len());
            let d = self.dim as int;
            let n = self.ids@.len() as int;
            assert(i * d + d <= n * d) by (nonlinear_arith)
                requires
                    i < n,
                    0 <= d,
            ;
            assert(0 <= i * d) by (nonlinear_arith)
                requires
                    0 <= i,
                    0 <= d,
            ;
        }
        vstd::slice::slice_subrange(self.vectors.as_slice(), i * self.dim, i * self.dim + self.dim)
    }

    /// The number of stored vectors.
    pub fn len(&self) -> (r: usize)
        ensures
            r == self.ids_view().len(),
    {
        self.ids.len()
    }

    /// Whether no vector is stored.
    pub fn is_empty(&self) -> (r: bool)
        ensures
            r == (self.ids_view().len() == 0),
    {
        self.ids.len() == 0
    }

    /// The number of components of every stored vector.
    pub fn dim(&self) -> (r: usize)
        ensures
            r == self.dim_view(),
    {
        self.dim
    }
}

} // verus!
