//! Framing of write-ahead-log records.
//!
//! Every record is stored as `[len: u32 LE][payload: len bytes][crc: u32 LE]`,
//! where `crc` is the CRC-32 of the payload.  Replaying a log yields the
//! payloads of the well-formed records from the start of the log and stops
//! at the first record that is empty, longer than `MAX_RECORD_LEN`, cut short
//! or whose checksum does not match.
use vstd::prelude::*;
use vstd::bytes::*;
use crate::crc::{crc32, crc32_of, lemma_crc32_detects_byte_change};

verus! {

/// The largest payload a replayed record may have (64 MiB).
pub const MAX_RECORD_LEN: usize = 67108864;

/// The bytes that `encode_record` writes for `payload`.
pub open spec fn frame_of(payload: Seq<u8>) -> Seq<u8> {
    spec_u32_to_le_bytes(payload.len() as u32) + payload + spec_u32_to_le_bytes(crc32(payload))
}

/// The log obtained by writing the records `ps` in order.
pub open spec fn frames_of(ps: Seq<Seq<u8>>) -> Seq<u8>
    decreases ps.len(),
{
    if ps.len() == 0 {
        Seq::empty()
    } else {
        frame_of(ps[0]) + frames_of(ps.drop_first())
    }
}

/// The payloads that replaying the log `log` yields.
pub open spec fn replay_of(log: Seq<u8>) -> Seq<Seq<u8>>
    decreases log.len(),
{
    if log.len() < 4 {
        Seq::empty()
    } else {
        let len = spec_u32_from_le_bytes(log.subrange(0, 4)) as int;
        if len == 0 || len > MAX_RECORD_LEN || log.len() < len + 8 {
            Seq::empty()
        } else if crc32(log.subrange(4, 4 + len)) != spec_u32_from_le_bytes(
            log.subrange(4 + len, 8 + len),
        ) {
            Seq::empty()
        } else {
            seq![log.subrange(4, 4 + len)] + replay_of(log.skip(8 + len))
        }
    }
}

/// Whether replaying `log` ends at a record whose checksum does not match
/// (rather than at the end of the log, a cut-short record or a bad length).
pub open spec fn ends_in_crc_mismatch(log: Seq<u8>) -> bool
    decreases log.len(),
{
    if log.len() < 4 {
        false
    } else {
        let len = spec_u32_from_le_bytes(log.subrange(0, 4)) as int;
        if len == 0 || len > MAX_RECORD_LEN || log.len() < len + 8 {
            false
        } else if crc32(log.subrange(4, 4 + len)) != spec_u32_from_le_bytes(
            log.subrange(4 + len, 8 + len),
        ) {
            true
        } else {
            ends_in_crc_mismatch(log.skip(8 + len))
        }
    }
}

/// A payload that replay gives back unchanged: not empty and not too long.
pub open spec fn replayable(p: Seq<u8>) -> bool {
    0 < p.len() <= MAX_RECORD_LEN
}

/// The bytes to append to the log for one record holding `payload`.
/// The length field holds `payload.len()` truncated to 32 bits.
pub fn encode_record(payload: &[u8]) -> (frame: Vec<u8>)
    ensures
        frame@ == frame_of(payload@),
{
    let len: u32 = payload.len() as u32;
    let crc: u32 = crc32_of(payload);
    let mut frame = u32_to_le_bytes(len);
    let mut i: usize = 0;
    while i < payload.len()
        invariant
            i <= payload@.len(),
            frame@ == spec_u32_to_le_bytes(len) + payload@.subrange(0, i as int),
        decreases payload@.len() - i,
    {
        frame.push(payload[i]);
        assert(payload@.subrange(0, i + 1) == payload@.subrange(0, i as int).push(payload@[i as int]));
        i = i + 1;
    }
    assert(payload@.subrange(0, payload@.len() as int) == payload@);
    let mut tail = u32_to_le_bytes(crc);
    frame.append(&mut tail);
    frame
}

/// The payloads of the well-formed records at the start of `log`, in order,
/// and whether the replay stopped at a record whose checksum did not match.
pub fn decode_records(log: &[u8]) -> (out: (Vec<Vec<u8>>, bool))
    ensures
        out.0@.map_values(|r: Vec<u8>| r@) == replay_of(log@),
        out.1 == ends_in_crc_mismatch(log@),
{
    let mut records: Vec<Vec<u8>> = Vec::new();
    let mut pos: usize = 0;
    let mut mismatch = false;
    assert(log@.skip(0) == log@);
    assert(records@.map_values(|r: Vec<u8>| r@) == Seq::<Seq<u8>>::empty());
    assert(Seq::<Seq<u8>>::empty() + replay_of(log@) == replay_of(log@));
    loop
        invariant_except_break
            !mismatch,
        invariant
            pos <= log@.len(),
            records@.map_values(|r: Vec<u8>| r@) + replay_of(log@.skip(pos as int)) == replay_of(
                log@,
            ),
            ends_in_crc_mismatch(log@.skip(pos as int)) == ends_in_crc_mismatch(log@),
        ensures
            records@.map_values(|r: Vec<u8>| r@) == replay_of(log@),
            mismatch == ends_in_crc_mismatch(log@),
        decreases log@.len() - pos,
    {
        let ghost rest = log@.skip(pos as int);
        if log.len() - pos < 4 {
            assert(replay_of(rest) == Seq::<Seq<u8>>::empty());
            assert(!ends_in_crc_mismatch(rest));
            assert(records@.map_values(|r: Vec<u8>| r@) + Seq::<Seq<u8>>::empty() == records@.map_values(|r: Vec<u8>| r@));
            break;
        }
        let len_bytes = vstd::slice::slice_subrange(log, pos, pos + 4);
        assert(len_bytes@ == rest.subrange(0, 4));
        let len32: u32 = u32_from_le_bytes(len_bytes);
        let len: usize = len32 as usize;
        if len == 0 || len > MAX_RECORD_LEN || log.len() - pos - 4 < len + 4 {
            assert(replay_of(rest) == Seq::<Seq<u8>>::empty());
            assert(!ends_in_crc_mismatch(rest));
            assert(records@.map_values(|r: Vec<u8>| r@) + Seq::<Seq<u8>>::empty() == records@.map_values(|r: Vec<u8>| r@));
            break;
        }
        let payload_slice = vstd::slice::slice_subrange(log, pos + 4, pos + 4 + len);
        assert(payload_slice@ == rest.subrange(4, 4 + len));
        let crc_bytes = vstd::slice::slice_subrange(log, pos + 4 + len, pos + 8 + len);
        assert(crc_bytes@ == rest.subrange(4 + len, 8 + len));
        let stored: u32 = u32_from_le_bytes(crc_bytes);
        let computed: u32 = crc32_of(payload_slice);
        if computed != stored {
            mismatch = true;
            assert(replay_of(rest) == Seq::<Seq<u8>>::empty());
            assert(ends_in_crc_mismatch(rest));
            assert(records@.map_values(|r: Vec<u8>| r@) + Seq::<Seq<u8>>::empty() == records@.map_values(|r: Vec<u8>| r@));
            break;
        }
        let payload = vstd::slice::slice_to_vec(payload_slice);
        let ghost before = records@.map_values(|r: Vec<u8>| r@);
        records.push(payload);
        assert(records@.map_values(|r: Vec<u8>| r@) == before.push(payload@));
        assert(rest.skip(8 + len) == log@.skip(pos + 8 + len));
        assert(replay_of(rest) == seq![payload@] + replay_of(rest.skip(8 + len)));
        assert(before.push(payload@) + replay_of(rest.skip(8 + len)) == before + (seq![payload@] + replay_of(rest.skip(8 + len))));
        pos = pos + 8 + len;
    }
    (records, mismatch)
}

/// Replaying a log that starts with a record written by `encode_record`
/// yields that record's payload, then whatever the rest of the log yields.
pub proof fn lemma_replay_record_then(p: Seq<u8>, tail: Seq<u8>)
    requires
        replayable(p),
    ensures
        replay_of(frame_of(p) + tail) == seq![p] + replay_of(tail),
{
    lemma_auto_spec_u32_to_from_le_bytes();
    let log = frame_of(p) + tail;
    let len = p.len() as int;
    assert((p.len() as u32) as int == len);
    assert(log.subrange(0, 4) == spec_u32_to_le_bytes(p.len() as u32));
    assert(log.subrange(4, 4 + len) == p);
    assert(log.subrange(4 + len, 8 + len) == spec_u32_to_le_bytes(crc32(p)));
    assert(log.skip(8 + len) == tail);
}

/// A log made of the records `ps`, each written by `encode_record` and each
/// replayable, followed by anything at all, replays to `ps` followed by what
/// the remainder replays to.  In particular a torn or corrupted tail never
/// costs a record that was written completely before it.
pub proof fn lemma_replay_records_then(ps: Seq<Seq<u8>>, tail: Seq<u8>)
    requires
        forall|i: int| 0 <= i < ps.len() ==> replayable(#[trigger] ps[i]),
    ensures
        replay_of(frames_of(ps) + tail) == ps + replay_of(tail),
    decreases ps.len(),
{
    if ps.len() == 0 {
        assert(frames_of(ps) + tail == tail);
        assert(ps + replay_of(tail) == replay_of(tail));
    } else {
        let rest = ps.drop_first();
        assert forall|i: int| 0 <= i < rest.len() implies replayable(#[trigger] rest[i]) by {
            assert(rest[i] == ps[i + 1]);
        }
        lemma_replay_records_then(rest, tail);
        assert(frames_of(ps) + tail == frame_of(ps[0]) + (frames_of(rest) + tail));
        lemma_replay_record_then(ps[0], frames_of(rest) + tail);
        assert(seq![ps[0]] + (rest + replay_of(tail)) == ps + replay_of(tail));
    }
}

/// Replaying exactly the records that were written gives them back, in
/// order: the log is a faithful record of every replayable append.
pub proof fn lemma_replay_of_records(ps: Seq<Seq<u8>>)
    requires
        forall|i: int| 0 <= i < ps.len() ==> replayable(#[trigger] ps[i]),
    ensures
        replay_of(frames_of(ps)) == ps,
{
    lemma_replay_records_then(ps, Seq::empty());
    assert(frames_of(ps) + Seq::<u8>::empty() == frames_of(ps));
    assert(replay_of(Seq::<u8>::empty()) == Seq::<Seq<u8>>::empty());
    assert(ps + Seq::<Seq<u8>>::empty() == ps);
}

/// Appending one more record to a log of records appends its payload to
/// what the log replays to.
pub proof fn lemma_append_record(ps: Seq<Seq<u8>>, p: Seq<u8>)
    requires
        forall|i: int| 0 <= i < ps.len() ==> replayable(#[trigger] ps[i]),
        replayable(p),
    ensures
        replay_of(frames_of(ps) + frame_of(p)) == ps.push(p),
{
    lemma_replay_records_then(ps, frame_of(p));
    lemma_replay_record_then(p, Seq::empty());
    assert(frame_of(p) + Seq::<u8>::empty() == frame_of(p));
    assert(replay_of(Seq::<u8>::empty()) == Seq::<Seq<u8>>::empty());
    assert(seq![p] + Seq::<Seq<u8>>::empty() == seq![p]);
    assert(ps + seq![p] == ps.push(p));
}

/// A record whose payload or checksum had one byte changed is rejected:
/// replaying a log that starts with it yields nothing, whatever follows,
/// and the replay ends on a checksum mismatch.
pub proof fn lemma_corrupt_record_rejected(p: Seq<u8>, i: int, b: u8, tail: Seq<u8>)
    requires
        replayable(p),
        4 <= i < frame_of(p).len(),
        b != frame_of(p)[i],
    ensures
        replay_of(frame_of(p).update(i, b) + tail) == Seq::<Seq<u8>>::empty(),
        ends_in_crc_mismatch(frame_of(p).update(i, b) + tail),
{
    lemma_auto_spec_u32_to_from_le_bytes();
    let f = frame_of(p);
    let log = f.update(i, b) + tail;
    let len = p.len() as int;
    let len_bytes = spec_u32_to_le_bytes(p.len() as u32);
    let crc_bytes = spec_u32_to_le_bytes(crc32(p));
    assert((p.len() as u32) as int == len);
    assert(f.len() == len + 8);
    assert(log.subrange(0, 4) =~= len_bytes);
    if i < 4 + len {
        let q = p.update(i - 4, b);
        assert(f[i] == p[i - 4]);
        assert(log.subrange(4, 4 + len) =~= q);
        assert(log.subrange(4 + len, 8 + len) =~= crc_bytes);
        lemma_crc32_detects_byte_change(p, i - 4, b);
    } else {
        let j = i - 4 - len;
        assert(log.subrange(4, 4 + len) =~= p);
        assert(f[i] == crc_bytes[j]);
        let stored = log.subrange(4 + len, 8 + len);
        assert(stored =~= crc_bytes.update(j, b));
        if spec_u32_from_le_bytes(stored) == crc32(p) {
            assert(spec_u32_to_le_bytes(spec_u32_from_le_bytes(stored)) == stored);
            assert(stored[j] != crc_bytes[j]);
        }
    }
}

/// A log of complete records followed by one with a byte of its payload
/// or checksum changed replays to exactly the records before it: the
/// corrupt record and everything after it are dropped, nothing before it
/// is lost.
pub proof fn lemma_replay_stops_at_corrupt_record(
    ps: Seq<Seq<u8>>,
    p: Seq<u8>,
    i: int,
    b: u8,
    tail: Seq<u8>,
)
    requires
        forall|k: int| 0 <= k < ps.len() ==> replayable(#[trigger] ps[k]),
        replayable(p),
        4 <= i < frame_of(p).len(),
        b != frame_of(p)[i],
    ensures
        replay_of(frames_of(ps) + (frame_of(p).update(i, b) + tail)) == ps,
{
    lemma_replay_records_then(ps, frame_of(p).update(i, b) + tail);
    lemma_corrupt_record_rejected(p, i, b, tail);
    assert(ps + Seq::<Seq<u8>>::empty() == ps);
}

/// A log of complete records whose last record was torn off part-way
/// (only the first `cut` bytes of its frame were written) replays to the
/// complete records alone.
pub proof fn lemma_replay_drops_torn_record(ps: Seq<Seq<u8>>, p: Seq<u8>, cut: int)
    requires
        forall|k: int| 0 <= k < ps.len() ==> replayable(#[trigger] ps[k]),
        replayable(p),
        0 <= cut < frame_of(p).len(),
    ensures
        replay_of(frames_of(ps) + frame_of(p).subrange(0, cut)) == ps,
{
    lemma_auto_spec_u32_to_from_le_bytes();
    let torn = frame_of(p).subrange(0, cut);
    lemma_replay_records_then(ps, torn);
    if cut >= 4 {
        assert(torn.subrange(0, 4) =~= spec_u32_to_le_bytes(p.len() as u32));
        assert((p.len() as u32) as int == p.len());
    }
    assert(replay_of(torn) == Seq::<Seq<u8>>::empty());
    assert(ps + Seq::<Seq<u8>>::empty() == ps);
}

/// The log holds, right at its start, a record with a sound length whose
/// checksum does not match.
pub open spec fn starts_with_bad_checksum(log: Seq<u8>) -> bool {
    &&& log.len() >= 4
    &&& 0 < spec_u32_from_le_bytes(log.subrange(0, 4)) <= MAX_RECORD_LEN
    &&& log.len() >= spec_u32_from_le_bytes(log.subrange(0, 4)) + 8
    &&& crc32(log.subrange(4, 4 + spec_u32_from_le_bytes(log.subrange(0, 4)) as int))
        != spec_u32_from_le_bytes(
        log.subrange(
            4 + spec_u32_from_le_bytes(log.subrange(0, 4)) as int,
            8 + spec_u32_from_le_bytes(log.subrange(0, 4)) as int,
        ),
    )
}

/// Replay reads the log from its first byte on, record after record with
/// nothing skipped: the records it yields, framed again, are exactly the
/// bytes at the start of the log.  It reports a checksum mismatch exactly
/// when the bytes right after those records start a record of sound length
/// whose checksum does not match.
pub proof fn lemma_replay_reads_leading_frames(log: Seq<u8>)
    ensures
        frames_of(replay_of(log)).len() <= log.len(),
        log.subrange(0, frames_of(replay_of(log)).len() as int) == frames_of(replay_of(log)),
        ends_in_crc_mismatch(log) == starts_with_bad_checksum(
            log.skip(frames_of(replay_of(log)).len() as int),
        ),
    decreases log.len(),
{
    lemma_auto_spec_u32_to_from_le_bytes();
    let ps = replay_of(log);
    if log.len() >= 4 {
        let len = spec_u32_from_le_bytes(log.subrange(0, 4)) as int;
        if !(len == 0 || len > MAX_RECORD_LEN || log.len() < len + 8) && crc32(log.subrange(4, 4 + len))
            == spec_u32_from_le_bytes(log.subrange(4 + len, 8 + len)) {
            let p = log.subrange(4, 4 + len);
            let rest = log.skip(8 + len);
            lemma_replay_reads_leading_frames(rest);
            assert(ps == seq![p] + replay_of(rest));
            assert(ps.drop_first() =~= replay_of(rest));
            assert(ps[0] == p);
            let fr = frames_of(replay_of(rest));
            assert(frames_of(ps) == frame_of(p) + fr);
            assert(frame_of(p).len() == len + 8);
            assert(log.subrange(0, len + 8) == frame_of(p)) by {
                assert((p.len() as u32) == spec_u32_from_le_bytes(log.subrange(0, 4)));
                assert(log.subrange(0, 4) == spec_u32_to_le_bytes(spec_u32_from_le_bytes(log.subrange(0, 4))));
                assert(log.subrange(4 + len, 8 + len) == spec_u32_to_le_bytes(
                    spec_u32_from_le_bytes(log.subrange(4 + len, 8 + len)),
                ));
                assert(log.subrange(0, len + 8) =~= log.subrange(0, 4) + p + log.subrange(4 + len, 8 + len));
            }
            assert(log.subrange(0, frames_of(ps).len() as int) =~= log.subrange(0, len + 8) + rest.subrange(
                0,
                fr.len() as int,
            ));
            assert(log.skip(frames_of(ps).len() as int) =~= rest.skip(fr.len() as int));
        } else {
            assert(ps.len() == 0);
            assert(frames_of(ps).len() == 0);
            assert(log.skip(0) =~= log);
        }
    } else {
        assert(ps.len() == 0);
        assert(frames_of(ps).len() == 0);
        assert(log.skip(0) =~= log);
    }
}

/// A log whose first four bytes hold a length of zero or above
/// `MAX_RECORD_LEN` replays to nothing, and not to a checksum mismatch,
/// whatever follows: replay never skips a bad length field to read on.
pub proof fn lemma_bad_length_replays_nothing(n: u32, tail: Seq<u8>)
    requires
        n == 0 || n > MAX_RECORD_LEN,
    ensures
        replay_of(spec_u32_to_le_bytes(n) + tail) == Seq::<Seq<u8>>::empty(),
        !ends_in_crc_mismatch(spec_u32_to_le_bytes(n) + tail),
{
    lemma_auto_spec_u32_to_from_le_bytes();
    let log = spec_u32_to_le_bytes(n) + tail;
    assert(log.subrange(0, 4) =~= spec_u32_to_le_bytes(n));
}

/// The log holds the record of payload `p` starting at byte `off`.
pub open spec fn framed_at(log: Seq<u8>, off: int, p: Seq<u8>) -> bool {
    &&& 0 <= off
    &&& off + frame_of(p).len() <= log.len()
    &&& log.subrange(off, off + frame_of(p).len()) == frame_of(p)
}

/// Replay only hands back checked records: every payload it yields is
/// replayable and sits in the log as a complete record, length field and
/// matching CRC-32 included.
pub proof fn lemma_replayed_records_are_framed(log: Seq<u8>)
    ensures
        forall|i: int|
            0 <= i < replay_of(log).len() ==> replayable(#[trigger] replay_of(log)[i]) && exists|off: int|
                framed_at(log, off, replay_of(log)[i]),
    decreases log.len(),
{
    lemma_auto_spec_u32_to_from_le_bytes();
    if log.len() >= 4 {
        let len = spec_u32_from_le_bytes(log.subrange(0, 4)) as int;
        if !(len == 0 || len > MAX_RECORD_LEN || log.len() < len + 8) && crc32(log.subrange(4, 4 + len))
            == spec_u32_from_le_bytes(log.subrange(4 + len, 8 + len)) {
            let p = log.subrange(4, 4 + len);
            let rest = log.skip(8 + len);
            lemma_replayed_records_are_framed(rest);
            let r = replay_of(log);
            assert(r == seq![p] + replay_of(rest));
            assert(frame_of(p).len() == len + 8);
            assert(log.subrange(0, len + 8) == frame_of(p)) by {
                assert((p.len() as u32) == spec_u32_from_le_bytes(log.subrange(0, 4)));
                assert(log.subrange(0, 4) == spec_u32_to_le_bytes(spec_u32_from_le_bytes(log.subrange(0, 4))));
                assert(log.subrange(4 + len, 8 + len) == spec_u32_to_le_bytes(
                    spec_u32_from_le_bytes(log.subrange(4 + len, 8 + len)),
                ));
                assert(log.subrange(0, len + 8) =~= log.subrange(0, 4) + p + log.subrange(4 + len, 8 + len));
            }
            assert forall|i: int| 0 <= i < r.len() implies replayable(#[trigger] r[i]) && exists|off: int|
                framed_at(log, off, r[i]) by {
                if i == 0 {
                    assert(r[0] == p);
                    assert(framed_at(log, 0, r[0]));
                } else {
                    let q = replay_of(rest)[i - 1];
                    assert(r[i] == q);
                    let off2 = choose|off: int| framed_at(rest, off, q);
                    let off = off2 + 8 + len;
                    assert(log.subrange(off, off + frame_of(q).len()) =~= rest.subrange(
                        off2,
                        off2 + frame_of(q).len(),
                    ));
                    assert(framed_at(log, off, q));
                }
            }
        } else {
            assert(replay_of(log).len() == 0);
        }
    } else {
        assert(replay_of(log).len() == 0);
    }
}

} // verus!
