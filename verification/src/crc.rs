//! CRC-32 (IEEE 802.3, reflected polynomial `0xEDB88320`) as used to
//! protect write-ahead-log records.
use vstd::prelude::*;

verus! {

/// One bit of the reflected CRC-32 shift register.
pub open spec fn crc32_bit_step(c: u32) -> u32 {
    if c & 1u32 == 1u32 {
        (c >> 1u32) ^ 0xEDB8_8320u32
    } else {
        c >> 1u32
    }
}

/// Eight shift steps applied to a register value.
pub open spec fn crc32_shift8(c: u32) -> u32 {
    crc32_bit_step(
        crc32_bit_step(
            crc32_bit_step(
                crc32_bit_step(
                    crc32_bit_step(crc32_bit_step(crc32_bit_step(crc32_bit_step(c)))),
                ),
            ),
        ),
    )
}

/// The register after feeding every byte of `s`, starting from all ones.
pub open spec fn crc32_register(s: Seq<u8>) -> u32
    decreases s.len(),
{
    if s.len() == 0 {
        0xFFFF_FFFFu32
    } else {
        crc32_shift8(crc32_register(s.drop_last()) ^ (s.last() as u32))
    }
}

/// The CRC-32 (IEEE) checksum of `s`: the final register, inverted.
pub open spec fn crc32(s: Seq<u8>) -> u32 {
    !crc32_register(s)
}

/// One shift step is linear over GF(2), and sends only zero to zero.
proof fn lemma_bit_step(a: u32, b: u32)
    ensures
        crc32_bit_step(a ^ b) == crc32_bit_step(a) ^ crc32_bit_step(b),
        crc32_bit_step(a) == 0 <==> a == 0,
{
    assert(crc32_bit_step(a ^ b) == crc32_bit_step(a) ^ crc32_bit_step(b)) by (bit_vector);
    assert(crc32_bit_step(a) == 0 <==> a == 0) by (bit_vector);
}

/// Any number of shift steps is linear, and sends only zero to zero.
proof fn lemma_steps(a: u32, b: u32, n: int)
    ensures
        crc32_steps(a ^ b, n) == crc32_steps(a, n) ^ crc32_steps(b, n),
        crc32_steps(a, n) == 0 <==> a == 0,
    decreases n,
{
    if n > 0 {
        lemma_steps(a, b, n - 1);
        lemma_bit_step(crc32_steps(a, n - 1), crc32_steps(b, n - 1));
    }
}

/// Eight shift steps are linear too, and send only zero to zero.
proof fn lemma_shift8(a: u32, b: u32)
    ensures
        crc32_shift8(a ^ b) == crc32_shift8(a) ^ crc32_shift8(b),
        crc32_shift8(a) == 0 <==> a == 0,
{
    lemma_steps(a, b, 8);
    reveal_with_fuel(crc32_steps, 9);
}

/// `n` shift steps applied to `c`.
spec fn crc32_steps(c: u32, n: int) -> u32
    decreases n,
{
    if n <= 0 {
        c
    } else {
        crc32_bit_step(crc32_steps(c, n - 1))
    }
}

/// Two inputs of one length that differ in the byte at `k` alone end with
/// different registers.
proof fn lemma_register_single_change(s: Seq<u8>, t: Seq<u8>, k: int)
    requires
        s.len() == t.len(),
        0 <= k < s.len(),
        s[k] != t[k],
        forall|j: int| 0 <= j < s.len() && j != k ==> s[j] == t[j],
    ensures
        crc32_register(s) != crc32_register(t),
    decreases s.len(),
{
    let rs = crc32_register(s.drop_last());
    let rt = crc32_register(t.drop_last());
    let bs = s.last() as u32;
    let bt = t.last() as u32;
    lemma_shift8(rs ^ bs, rt ^ bt);
    if k == s.len() - 1 {
        assert(s.drop_last() =~= t.drop_last());
        assert((rs ^ bs) ^ (rt ^ bt) != 0) by (bit_vector)
            requires
                rs == rt,
                bs != bt,
        ;
    } else {
        lemma_register_single_change(s.drop_last(), t.drop_last(), k);
        assert((rs ^ bs) ^ (rt ^ bt) != 0) by (bit_vector)
            requires
                rs != rt,
                bs == bt,
        ;
    }
    let c = (rs ^ bs) ^ (rt ^ bt);
    lemma_shift8(c, 0);
    let x = crc32_shift8(rs ^ bs);
    let y = crc32_shift8(rt ^ bt);
    assert(x != y) by (bit_vector)
        requires
            x ^ y != 0,
    ;
    assert(crc32_register(s) == x);
    assert(crc32_register(t) == y);
}

/// CRC-32 catches every change of a single byte: replacing the byte at `k`
/// by any other value changes the checksum.
pub proof fn lemma_crc32_detects_byte_change(s: Seq<u8>, k: int, b: u8)
    requires
        0 <= k < s.len(),
        b != s[k],
    ensures
        crc32(s.update(k, b)) != crc32(s),
{
    lemma_register_single_change(s.update(k, b), s, k);
    let x = crc32_register(s.update(k, b));
    let y = crc32_register(s);
    assert(!x != !y) by (bit_vector)
        requires
            x != y,
    ;
}

/// Calls `crc32fast::hash`, which computes the CRC-32 (IEEE) checksum of
/// `bytes` (it runs `Hasher::new`, `Hasher::update` and `Hasher::finalize`);
/// the contract claims its result is the checksum defined by `crc32`.
#[verifier::external_body]
pub(crate) fn crc32_of(bytes: &[u8]) -> (r: u32)
    ensures
        r == crc32(bytes@),
{
    crc32fast::hash(bytes)
}

} // verus!
