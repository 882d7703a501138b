//! Flat vector storage in a writable memory map.
//!
//! Layout: `[n_vecs: u64 LE][dim: u64 LE]` followed by the vectors, one after
//! the other, each component stored as the 4 little-endian bytes of its
//! `f32` bit pattern (handed to this module as a `u32`).
use vstd::prelude::*;
use vstd::bytes::*;
use memmap2::MmapMut;

verus! {

/// Bytes taken by the header: two `u64` fields.
pub const HEADER_BYTES: usize = 16;

#[verifier::external_type_specification]
#[verifier::external_body]
pub struct ExMmapMut(memmap2::MmapMut);

/// The bytes that a writable memory map currently holds.
pub uninterp spec fn mmap_contents(m: MmapMut) -> Seq<u8>;

/// Calls `<[u8]>::len` through `MmapMut`'s `Deref`: the number of mapped bytes.
#[verifier::external_body]
fn mmap_len(m: &MmapMut) -> (r: usize)
    ensures
        r == mmap_contents(*m).len(),
{
    m.len()
}

/// Calls `<[u8]>::copy_from_slice` on the `bytes.len()` mapped bytes from
/// `offset` on, reached through `MmapMut`'s `DerefMut`: those bytes become
/// `bytes`, every other byte stays as it was.
#[verifier::external_body]
fn mmap_write(m: &mut MmapMut, offset: usize, bytes: &[u8])
    requires
        offset + bytes@.len() <= mmap_contents(*old(m)).len(),
    ensures
        mmap_contents(*final(m)) == mmap_contents(*old(m)).subrange(0, offset as int) + bytes@
            + mmap_contents(*old(m)).subrange(
            offset + bytes@.len(),
            mmap_contents(*old(m)).len() as int,
        ),
{
    m[offset..][..bytes.len()].copy_from_slice(bytes)
}

/// Calls `<[u8]>::to_vec` on the `len` mapped bytes from `offset` on,
/// reached through `MmapMut`'s `Deref`: a copy of those bytes.
#[verifier::external_body]
fn mmap_read(m: &MmapMut, offset: usize, len: usize) -> (r: Vec<u8>)
    requires
        offset + len <= mmap_contents(*m).len(),
    ensures
        r@ == mmap_contents(*m).subrange(offset as int, offset + len),
{
    m[offset..][..len].to_vec()
}

/// Calls `MmapMut::flush`, which asks the OS to write the mapped bytes back
/// to the file; the mapped bytes do not change.  Whether the flush
/// succeeded is not reported, as the storage ignores it.
#[verifier::external_body]
fn mmap_flush(m: &MmapMut) {
    let _ = m.flush();
}

/// The little-endian encoding of a sequence of `u32` words.
pub open spec fn words_le(v: Seq<u32>) -> Seq<u8>
    decreases v.len(),
{
    if v.len() == 0 {
        Seq::empty()
    } else {
        words_le(v.drop_last()) + spec_u32_to_le_bytes(v.last())
    }
}

/// The `dim` words stored at byte offset `off` of `bytes`.
pub open spec fn words_at(bytes: Seq<u8>, off: int, dim: nat) -> Seq<u32> {
    Seq::new(dim, |j: int| spec_u32_from_le_bytes(bytes.subrange(off + 4 * j, off + 4 * j + 4)))
}

/// Byte offset of vector `i` when vectors have `dim` components.
pub open spec fn vector_offset(i: int, dim: int) -> int {
    HEADER_BYTES + 4 * (i * dim)
}

/// A mapped file that only this module reads and writes, so that nothing
/// outside it can change the bytes behind a storage's back.
pub struct MappedBytes {
    map: MmapMut,
}

impl MappedBytes {
    /// The mapped bytes.
    pub closed spec fn bytes(&self) -> Seq<u8> {
        mmap_contents(self.map)
    }
}

/// Memory-mapped flat vector storage.
pub struct MmapStorage {
    pub n_vecs: usize,
    pub dim: usize,
    pub mmap: MappedBytes,
}

proof fn lemma_words_le(v: Seq<u32>)
    ensures
        words_le(v).len() == 4 * v.len(),
        forall|j: int|
            0 <= j < v.len() ==> #[trigger] words_le(v).subrange(4 * j, 4 * j + 4)
                == spec_u32_to_le_bytes(v[j]),
    decreases v.len(),
{
    lemma_auto_spec_u32_to_from_le_bytes();
    if v.len() > 0 {
        let w = v.drop_last();
        lemma_words_le(w);
        assert forall|j: int| 0 <= j < v.len() implies #[trigger] words_le(v).subrange(
            4 * j,
            4 * j + 4,
        ) == spec_u32_to_le_bytes(v[j]) by {
            if j < w.len() {
                assert(words_le(v).subrange(4 * j, 4 * j + 4) == words_le(w).subrange(
                    4 * j,
                    4 * j + 4,
                ));
                assert(v[j] == w[j]);
            } else {
                assert(words_le(v).subrange(4 * j, 4 * j + 4) == spec_u32_to_le_bytes(v.last()));
            }
        }
    }
}

proof fn lemma_offsets_ordered(i: int, n: int, dim: int)
    requires
        0 <= i < n,
        0 <= dim,
    ensures
        vector_offset(i, dim) + 4 * dim <= vector_offset(n, dim),
        vector_offset(i, dim) >= HEADER_BYTES,
{
    assert((i + 1) * dim <= n * dim) by (nonlinear_arith)
        requires
            i + 1 <= n,
            0 <= dim,
    ;
    assert(i * dim >= 0) by (nonlinear_arith)
        requires
            0 <= i,
            0 <= dim,
    ;
    assert((i + 1) * dim == i * dim + dim) by (nonlinear_arith);
}

impl MmapStorage {
    /// The bytes of the mapped file.
    pub open spec fn contents(&self) -> Seq<u8> {
        self.mmap.bytes()
    }

    /// The vectors stored so far, in the order they were appended.
    pub open spec fn vectors(&self) -> Seq<Seq<u32>> {
        Seq::new(
            self.n_vecs as nat,
            |i: int| words_at(self.contents(), vector_offset(i, self.dim as int), self.dim as nat),
        )
    }

    /// The header records the vector count and dimension, and the stored
    /// vectors fit in the map.
    pub open spec fn wf(&self) -> bool {
        &&& self.contents().len() >= HEADER_BYTES
        &&& spec_u64_from_le_bytes(self.contents().subrange(0, 8)) == self.n_vecs as u64
        &&& spec_u64_from_le_bytes(self.contents().subrange(8, 16)) == self.dim as u64
        &&& vector_offset(self.n_vecs as int, self.dim as int) <= self.contents().len()
    }

    /// The number of bytes a storage file for `capacity` vectors of `dim`
    /// components takes, or `None` where that does not fit in a `usize`.
    pub fn required_len(capacity: usize, dim: usize) -> (r: Option<usize>)
        ensures
            vector_offset(capacity as int, dim as int) <= usize::MAX ==> r == Some(
                vector_offset(capacity as int, dim as int) as usize,
            ),
            vector_offset(capacity as int, dim as int) > usize::MAX ==> r is None,
    {
        match capacity.checked_mul(dim) {
            None => {
                assert(capacity * dim > usize::MAX);
                assert(vector_offset(capacity as int, dim as int) > usize::MAX);
                None
            },
            Some(cells) => {
                if cells > (usize::MAX - HEADER_BYTES) / 4 {
                    None
                } else {
                    Some(HEADER_BYTES + cells * 4)
                }
            },
        }
    }

    /// Takes over a freshly mapped file and writes the header of an empty
    /// storage of `dim`-component vectors into it.
    pub fn create_in(mmap: MmapMut, dim: usize) -> (s: Self)
        requires
            mmap_contents(mmap).len() >= HEADER_BYTES,
        ensures
            s.wf(),
            s.n_vecs == 0,
            s.dim == dim,
            s.vectors() == Seq::<Seq<u32>>::empty(),
            s.contents() == spec_u64_to_le_bytes(0) + spec_u64_to_le_bytes(dim as u64)
                + mmap_contents(mmap).subrange(16, mmap_contents(mmap).len() as int),
    {
        proof {
            lemma_auto_spec_u64_to_from_le_bytes();
        }
        let mut mmap = mmap;
        let count = u64_to_le_bytes(0u64);
        mmap_write(&mut mmap, 0, count.as_slice());
        let dim_bytes = u64_to_le_bytes(dim as u64);
        mmap_write(&mut mmap, 8, dim_bytes.as_slice());
        let s = MmapStorage { n_vecs: 0, dim, mmap: MappedBytes { map: mmap } };
        assert(s.contents().subrange(0, 8) == spec_u64_to_le_bytes(0));
        assert(s.contents().subrange(8, 16) == spec_u64_to_le_bytes(dim as u64));
        assert(s.vectors() == Seq::<Seq<u32>>::empty());
        s
    }

    /// Takes over a mapped file if it can hold the header, as `create_in`
    /// does; `None` when the map is shorter than the header.
    pub fn try_create_in(mmap: MmapMut, dim: usize) -> (r: Option<Self>)
        ensures
            r is None <==> mmap_contents(mmap).len() < HEADER_BYTES,
            r matches Some(s) ==> {
                &&& s.wf()
                &&& s.n_vecs == 0
                &&& s.dim == dim
                &&& s.vectors() == Seq::<Seq<u32>>::empty()
                &&& s.contents() == spec_u64_to_le_bytes(0) + spec_u64_to_le_bytes(dim as u64)
                    + mmap_contents(mmap).subrange(16, mmap_contents(mmap).len() as int)
            },
    {
        if mmap_len(&mmap) < HEADER_BYTES {
            None
        } else {
            Some(Self::create_in(mmap, dim))
        }
    }

    /// The `len` mapped bytes from `offset` on.
    pub fn read_bytes(&self, offset: usize, len: usize) -> (r: Vec<u8>)
        requires
            offset + len <= self.contents().len(),
        ensures
            r@ == self.contents().subrange(offset as int, offset + len),
    {
        mmap_read(&self.mmap.map, offset, len)
    }

    /// The number of bytes of the mapped file.
    pub fn mapped_len(&self) -> (r: usize)
        ensures
            r == self.contents().len(),
    {
        mmap_len(&self.mmap.map)
    }

    /// Appends `vec` (component bit patterns) after the stored vectors,
    /// records the new count in the header and flushes the map.
    pub fn append_vector(&mut self, vec: &[u32])
        requires
            old(self).wf(),
            vec@.len() == old(self).dim,
            old(self).n_vecs < usize::MAX,
            vector_offset(old(self).n_vecs + 1, old(self).dim as int) <= old(self).contents().len(),
        ensures
            final(self).wf(),
            final(self).dim == old(self).dim,
            final(self).n_vecs == old(self).n_vecs + 1,
            final(self).contents().len() == old(self).contents().len(),
            final(self).vectors() == old(self).vectors().push(vec@),
            final(self).contents().subrange(0, 8) == spec_u64_to_le_bytes(final(self).n_vecs as u64),
            final(self).contents().subrange(
                vector_offset(old(self).n_vecs as int, old(self).dim as int),
                vector_offset(old(self).n_vecs + 1, old(self).dim as int),
            ) == words_le(vec@),
            forall|k: int|
                8 <= k < old(self).contents().len() && !(vector_offset(
                    old(self).n_vecs as int,
                    old(self).dim as int,
                ) <= k < vector_offset(old(self).n_vecs + 1, old(self).dim as int))
                    ==> #[trigger] final(self).contents()[k] == old(self).contents()[k],
    {
        let ghost old_bytes = self.contents();
        let ghost n = self.n_vecs as int;
        let ghost dim = self.dim as int;
        proof {
            lemma_offsets_ordered(n, n + 1, dim);
            assert(vector_offset(n + 1, dim) == vector_offset(n, dim) + 4 * dim) by (nonlinear_arith);
        }
        // The mapped length is a `usize`, which bounds the offsets below.
        let total = mmap_len(&self.mmap.map);
        proof {
            assert(vector_offset(n + 1, dim) <= total);
            assert(self.n_vecs * self.dim <= 4 * (self.n_vecs * self.dim));
        }
        let offset: usize = HEADER_BYTES + 4 * (self.n_vecs * self.dim);
        let mut encoded: Vec<u8> = Vec::new();
        let mut i: usize = 0;
        while i < vec.len()
            invariant
                i <= vec@.len(),
                encoded@ == words_le(vec@.subrange(0, i as int)),
            decreases vec@.len() - i,
        {
            let mut word = u32_to_le_bytes(vec[i]);
            encoded.append(&mut word);
            assert(vec@.subrange(0, i + 1).drop_last() == vec@.subrange(0, i as int));
            i = i + 1;
        }
        assert(vec@.subrange(0, vec@.len() as int) == vec@);
        proof {
            lemma_words_le(vec@);
        }
        mmap_write(&mut self.mmap.map, offset, encoded.as_slice());
        self.n_vecs = self.n_vecs + 1;
        let count = u64_to_le_bytes(self.n_vecs as u64);
        mmap_write(&mut self.mmap.map, 0, count.as_slice());
        mmap_flush(&self.mmap.map);
        proof {
            lemma_auto_spec_u64_to_from_le_bytes();
            lemma_auto_spec_u32_to_from_le_bytes();
            let new_bytes = self.contents();
            let off = vector_offset(n, dim);
            assert(new_bytes.subrange(0, 8) == spec_u64_to_le_bytes(self.n_vecs as u64));
            assert(new_bytes.subrange(8, 16) == old_bytes.subrange(8, 16));
            assert forall|k: int| 8 <= k < 16 implies #[trigger] new_bytes[k] == old_bytes[k] by {
                assert(new_bytes.subrange(8, 16)[k - 8] == old_bytes.subrange(8, 16)[k - 8]);
            }
            assert(new_bytes.subrange(off, off + 4 * dim) =~= encoded@);
            assert forall|k: int| 16 <= k < new_bytes.len() implies #[trigger] new_bytes[k] == if off
                <= k < off + 4 * dim {
                encoded@[k - off]
            } else {
                old_bytes[k]
            } by {}
            assert forall|i: int| 0 <= i < n + 1 implies #[trigger] self.vectors()[i] == stored_then_pushed(
                old_bytes,
                n,
                dim,
                vec@,
            )[i] by {
                if i < n {
                    lemma_offsets_ordered(i, n, dim);
                    let oi = vector_offset(i, dim);
                    assert forall|j: int| 0 <= j < dim implies #[trigger] new_bytes.subrange(
                        oi + 4 * j,
                        oi + 4 * j + 4,
                    ) == old_bytes.subrange(oi + 4 * j, oi + 4 * j + 4) by {
                        assert(new_bytes.subrange(oi + 4 * j, oi + 4 * j + 4) =~= old_bytes.subrange(
                            oi + 4 * j,
                            oi + 4 * j + 4,
                        ));
                    }
                    assert(words_at(new_bytes, oi, dim as nat) =~= words_at(old_bytes, oi, dim as nat));
                } else {
                    assert forall|j: int| 0 <= j < dim implies new_bytes.subrange(
                        off + 4 * j,
                        off + 4 * j + 4,
                    ) == #[trigger] encoded@.subrange(4 * j, 4 * j + 4) by {
                        assert(new_bytes.subrange(off + 4 * j, off + 4 * j + 4) =~= encoded@.subrange(
                            4 * j,
                            4 * j + 4,
                        ));
                    }
                    assert forall|j: int| 0 <= j < dim implies #[trigger] words_at(
                        new_bytes,
                        off,
                        dim as nat,
                    )[j] == vec@[j] by {
                        assert(words_le(vec@).subrange(4 * j, 4 * j + 4) == spec_u32_to_le_bytes(
                            vec@[j],
                        ));
                        assert(encoded@.subrange(4 * j, 4 * j + 4) == spec_u32_to_le_bytes(vec@[j]));
                        assert(spec_u32_from_le_bytes(spec_u32_to_le_bytes(vec@[j])) == vec@[j]);
                    }
                    assert(words_at(new_bytes, off, dim as nat) =~= vec@);
                }
            }
            assert(self.vectors() =~= stored_then_pushed(old_bytes, n, dim, vec@));
        }
    }

    /// The `dim` components stored at slot `idx` (whether or not a vector
    /// was appended there), as bit patterns.
    pub fn get_vector(&self, idx: usize) -> (r: Vec<u32>)
        requires
            vector_offset(idx + 1, self.dim as int) <= self.contents().len(),
        ensures
            r@ == words_at(self.contents(), vector_offset(idx as int, self.dim as int), self.dim as nat),
            self.wf() && idx < self.n_vecs ==> r@ == self.vectors()[idx as int],
    {
        let ghost dim = self.dim as int;
        proof {
            assert(vector_offset(idx + 1, dim) == vector_offset(idx as int, dim) + 4 * dim) by (nonlinear_arith);
            assert(idx * dim >= 0) by (nonlinear_arith) requires idx >= 0, dim >= 0;
        }
        // The mapped length is a `usize`, which bounds the offsets below.
        let total = mmap_len(&self.mmap.map);
        proof {
            assert(idx * self.dim <= 4 * (idx * self.dim));
        }
        let offset: usize = HEADER_BYTES + 4 * (idx * self.dim);
        let mut out: Vec<u32> = Vec::new();
        let mut i: usize = 0;
        while i < self.dim
            invariant
                i <= dim,
                dim == self.dim,
                offset == vector_offset(idx as int, dim),
                offset + 4 * dim <= self.contents().len(),
                total == self.contents().len(),
                out@ == words_at(self.contents(), offset as int, dim as nat).subrange(0, i as int),
            decreases dim - i,
        {
            let bytes = mmap_read(&self.mmap.map, offset + 4 * i, 4);
            let w = u32_from_le_bytes(bytes.as_slice());
            out.push(w);
            assert(out@ =~= words_at(self.contents(), offset as int, dim as nat).subrange(0, i + 1));
            i = i + 1;
        }
        assert(out@ =~= words_at(self.contents(), offset as int, dim as nat));
        out
    }
}

/// The `n` vectors of `dim` components stored in `bytes`, followed by `v`.
spec fn stored_then_pushed(bytes: Seq<u8>, n: int, dim: int, v: Seq<u32>) -> Seq<Seq<u32>> {
    Seq::new(n as nat, |i: int| words_at(bytes, vector_offset(i, dim), dim as nat)).push(v)
}

} // verus!
