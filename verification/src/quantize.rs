//! Integer logic of the quantizers: the sums behind the cosine similarity of
//! two 8-bit quantized vectors, and the choice of the nearest centroid in
//! product quantization (distances arrive as order keys, see `score`).
use vstd::prelude::*;

verus! {

/// `sum_{i < n} a[i] * b[i]`.
pub open spec fn dot_prefix(a: Seq<u8>, b: Seq<u8>, n: int) -> int
    decreases n,
{
    if n <= 0 {
        0
    } else {
        dot_prefix(a, b, n - 1) + (a[n - 1] as int) * (b[n - 1] as int)
    }
}

/// The number of components two vectors share.
pub open spec fn common_len(a: Seq<u8>, b: Seq<u8>) -> int {
    if a.len() <= b.len() {
        a.len() as int
    } else {
        b.len() as int
    }
}

proof fn lemma_dot_prefix_bound(a: Seq<u8>, b: Seq<u8>, n: int)
    requires
        0 <= n,
    ensures
        0 <= dot_prefix(a, b, n) <= n * 65025,
    decreases n,
{
    if n > 0 {
        lemma_dot_prefix_bound(a, b, n - 1);
        let x = a[n - 1] as int;
        let y = b[n - 1] as int;
        assert(0 <= x * y <= 65025) by (nonlinear_arith)
            requires
                0 <= x <= 255,
                0 <= y <= 255,
        ;
    }
}

/// The dot product of `a` and `b` and their squared norms, over the
/// components they share.
pub fn sq8_dot_norms(a: &[u8], b: &[u8]) -> (r: (u64, u64, u64))
    requires
        common_len(a@, b@) * 65025 <= u64::MAX,
    ensures
        r.0 == dot_prefix(a@, b@, common_len(a@, b@)),
        r.1 == dot_prefix(a@, a@, common_len(a@, b@)),
        r.2 == dot_prefix(b@, b@, common_len(a@, b@)),
{
    let n: usize = if a.len() <= b.len() { a.len() } else { b.len() };
    let mut dot: u64 = 0;
    let mut na: u64 = 0;
    let mut nb: u64 = 0;
    let mut i: usize = 0;
    while i < n
        invariant
            n == common_len(a@, b@),
            n <= a@.len(),
            n <= b@.len(),
            n * 65025 <= u64::MAX,
            i <= n,
            dot == dot_prefix(a@, b@, i as int),
            na == dot_prefix(a@, a@, i as int),
            nb == dot_prefix(b@, b@, i as int),
        decreases n - i,
    {
        let x: u64 = a[i] as u64;
        let y: u64 = b[i] as u64;
        proof {
            lemma_dot_prefix_bound(a@, b@, i + 1);
            lemma_dot_prefix_bound(a@, a@, i + 1);
            lemma_dot_prefix_bound(b@, b@, i + 1);
            assert((i + 1) * 65025 <= n * 65025) by (nonlinear_arith)
                requires
                    i + 1 <= n,
            ;
            assert(x * y <= 65025 && x * x <= 65025 && y * y <= 65025) by (nonlinear_arith)
                requires
                    x <= 255,
                    y <= 255,
            ;
        }
        dot = dot + x * y;
        na = na + x * x;
        nb = nb + y * y;
        i = i + 1;
    }
    (dot, na, nb)
}

/// The order key of `f32::MAX`, the distance a nearest-centroid scan starts from.
pub const F32_MAX_KEY: u32 = 0xFF7F_FFFF;

/// `r` is what scanning `keys` for a strictly smaller key, starting from
/// `bound`, settles on: the first position of the smallest key when that key
/// is below `bound`, and 0 when no key is.
pub open spec fn is_first_min(keys: Seq<u32>, bound: u32, r: int) -> bool {
    if forall|j: int| 0 <= j < keys.len() ==> #[trigger] keys[j] >= bound {
        r == 0
    } else {
        &&& 0 <= r < keys.len()
        &&& keys[r] < bound
        &&& forall|j: int| 0 <= j < keys.len() ==> keys[r] <= #[trigger] keys[j]
        &&& forall|j: int| 0 <= j < r ==> keys[r] < #[trigger] keys[j]
    }
}

/// The scan settles on one position only.
pub proof fn lemma_first_min_unique(keys: Seq<u32>, bound: u32, r1: int, r2: int)
    requires
        is_first_min(keys, bound, r1),
        is_first_min(keys, bound, r2),
    ensures
        r1 == r2,
{
    if !(forall|j: int| 0 <= j < keys.len() ==> #[trigger] keys[j] >= bound) {
        if r1 < r2 {
            assert(keys[r2] < keys[r1]);
        } else if r2 < r1 {
            assert(keys[r1] < keys[r2]);
        }
    }
}

/// `code` is the 8-bit code a nearest-centroid scan of `keys` yields.
pub open spec fn code_of(keys: Seq<u32>, code: u8) -> bool {
    exists|r: int| #[trigger] is_first_min(keys, F32_MAX_KEY, r) && code == r as u8
}

/// For every sub-space, the centroid nearest to the query's sub-vector:
/// `dist_keys[i][c]` is the key of the distance to centroid `c` of
/// sub-space `i`.  The code is the position `is_first_min` picks below the
/// key of `f32::MAX`, truncated to 8 bits.  A NaN distance's key lies above
/// that bound (see `score`), so it is never picked.
pub fn nearest_codes(dist_keys: &Vec<Vec<u32>>) -> (codes: Vec<u8>)
    ensures
        codes@.len() == dist_keys@.len(),
        forall|i: int| 0 <= i < dist_keys@.len() ==> code_of(dist_keys@[i]@, #[trigger] codes@[i]),
{
    let mut codes: Vec<u8> = Vec::new();
    let mut i: usize = 0;
    while i < dist_keys.len()
        invariant
            i <= dist_keys@.len(),
            codes@.len() == i,
            forall|q: int| 0 <= q < i ==> code_of(dist_keys@[q]@, #[trigger] codes@[q]),
        decreases dist_keys@.len() - i,
    {
        let keys = &dist_keys[i];
        let mut best: usize = 0;
        let mut min_key: u32 = F32_MAX_KEY;
        let mut c: usize = 0;
        while c < keys.len()
            invariant
                c <= keys@.len(),
                best < keys@.len() || best == 0,
                min_key <= F32_MAX_KEY,
                (forall|j: int| 0 <= j < c ==> #[trigger] keys@[j] >= F32_MAX_KEY) ==> best == 0
                    && min_key == F32_MAX_KEY,
                (exists|j: int| 0 <= j < c && #[trigger] keys@[j] < F32_MAX_KEY) ==> {
                    &&& best < c
                    &&& min_key == keys@[best as int]
                    &&& min_key < F32_MAX_KEY
                    &&& forall|j: int| 0 <= j < c ==> min_key <= #[trigger] keys@[j]
                    &&& forall|j: int| 0 <= j < best ==> min_key < #[trigger] keys@[j]
                },
            decreases keys@.len() - c,
        {
            if keys[c] < min_key {
                min_key = keys[c];
                best = c;
            }
            c = c + 1;
        }
        proof {
            assert(is_first_min(keys@, F32_MAX_KEY, best as int));
        }
        codes.push(best as u8);
        proof {
            assert forall|q: int| 0 <= q < i + 1 implies code_of(dist_keys@[q]@, #[trigger] codes@[q]) by {
                if q == i {
                    assert(codes@[q] == best as u8);
                    assert(is_first_min(dist_keys@[q]@, F32_MAX_KEY, best as int));
                }
            }
        }
        i = i + 1;
    }
    codes
}

} // verus!
