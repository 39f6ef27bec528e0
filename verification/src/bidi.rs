//! Stream scanning for the bidirectional delay test: raw payloads arriving at a
//! slave, and acknowledgements coming back to the master inside user frames.
use vstd::prelude::*;
use crate::wire::{checksum_spec, le16, checksum_of_range, copy_range, append_bytes};
use crate::nlink::{HEADER_WRITE, MARK_USER_FRAME1, USER_FRAME_OVERHEAD, frame_data_len,
    starts_with_user_frame1_marker, user_frame1, user_frame1_header};
use crate::payload::{SYNC0, SYNC1, PAYLOAD_HEADER_SIZE, stamp, payload_image};
use crate::protocol::ack_payload;

verus! {

/// How many unconsumed bytes a stream buffer of the bidirectional test holds at most.
pub const STREAM_BUFFER_CAPACITY: usize = 65536;

/// Whether `data` is taken into a stream buffer holding `pending`: only when it is
/// not empty and both fit in [`STREAM_BUFFER_CAPACITY`] (otherwise it is dropped).
pub open spec fn accepts(pending: Seq<u8>, data: Seq<u8>) -> bool {
    data.len() > 0 && pending.len() + data.len() <= STREAM_BUFFER_CAPACITY
}

/// Appends `data` to `buf` when [`accepts`] allows it; tells whether it did.
pub fn append_bounded(buf: &mut Vec<u8>, data: &[u8]) -> (appended: bool)
    ensures
        appended == accepts(old(buf)@, data@),
        final(buf)@ == if appended {
            old(buf)@ + data@
        } else {
            old(buf)@
        },
{
    if data.len() > 0 && data.len() <= STREAM_BUFFER_CAPACITY && buf.len()
        <= STREAM_BUFFER_CAPACITY - data.len() {
        append_bytes(buf, data);
        true
    } else {
        false
    }
}

/// Scanning raw bytes for payloads of `p` bytes: while at least `p` bytes remain,
/// a front that starts with the two sync bytes gives the sequence number in its
/// bytes 2 and 3 and `p` bytes are consumed; any other front byte is skipped.
/// Returns the sequence numbers found and the bytes left over.
pub open spec fn scan_raw_spec(s: Seq<u8>, p: nat) -> (Seq<u16>, Seq<u8>)
    decreases s.len(),
{
    if p < 4 || s.len() < p {
        (seq![], s)
    } else if s[0] == SYNC0 && s[1] == SYNC1 {
        let rest = scan_raw_spec(s.skip(p as int), p);
        (seq![le16(s[2], s[3]) as u16] + rest.0, rest.1)
    } else {
        scan_raw_spec(s.skip(1), p)
    }
}

/// Takes every payload of `payload_sz` bytes out of the pending bytes `buf`;
/// returns their sequence numbers, each paired with `now_ns`, in order.
pub fn scan_raw(buf: &mut Vec<u8>, payload_sz: usize, now_ns: u64) -> (found: Vec<(u16, u64)>)
    requires
        payload_sz >= 4,
    ensures
        found@ == stamp(scan_raw_spec(old(buf)@, payload_sz as nat).0, now_ns),
        final(buf)@ == scan_raw_spec(old(buf)@, payload_sz as nat).1,
{
    let p = payload_sz;
    let ghost all = buf@;
    let ghost mut seqs: Seq<u16> = seq![];
    let mut found: Vec<(u16, u64)> = Vec::new();
    let mut start: usize = 0;
    assert(all.skip(0) =~= all);
    assert(seq![] + scan_raw_spec(all, p as nat).0 =~= scan_raw_spec(all, p as nat).0);
    while buf.len() - start >= p
        invariant
            buf@ == all,
            p >= 4,
            start <= buf@.len(),
            found@ == stamp(seqs, now_ns),
            scan_raw_spec(all, p as nat) == (seqs + scan_raw_spec(all.skip(start as int), p as nat).0,
                scan_raw_spec(all.skip(start as int), p as nat).1),
        decreases buf@.len() - start,
    {
        let ghost s = all.skip(start as int);
        if buf[start] == SYNC0 && buf[start + 1] == SYNC1 {
            let seq: u16 = buf[start + 2] as u16 + 256 * (buf[start + 3] as u16);
            assert(s.skip(p as int) =~= all.skip(start + p));
            proof {
                let before = seqs;
                seqs = seqs.push(seq);
                assert(stamp(seqs, now_ns) =~= stamp(before, now_ns).push((seq, now_ns)));
                assert(before.push(seq) + scan_raw_spec(s.skip(p as int), p as nat).0 =~= before + (
                seq![seq] + scan_raw_spec(s.skip(p as int), p as nat).0));
            }
            found.push((seq, now_ns));
            start = start + p;
        } else {
            assert(s.skip(1) =~= all.skip(start + 1));
            start = start + 1;
        }
    }
    let rest = copy_range(buf.as_slice(), start, buf.len());
    assert(rest@ =~= all.skip(start as int));
    assert(seqs + Seq::<u16>::empty() =~= seqs);
    *buf = rest;
    found
}

/// Whether a good frame at the front of `s` carries an acknowledgement for a test
/// with payloads of `p` bytes: at least `p` payload bytes, starting with the two
/// sync bytes in reverse order.
pub open spec fn carries_ack(s: Seq<u8>, p: nat) -> bool {
    frame_data_len(s) >= p && s[10] == SYNC1 && s[11] == SYNC0
}

/// Scanning for user frames that carry acknowledgements.  Like
/// [`crate::nlink::scan_user_frames`], except that scanning needs twelve bytes to
/// go on and that of each good frame only the sequence number in payload bytes 2
/// and 3 of an acknowledgement is kept.
pub open spec fn scan_ack_frames(s: Seq<u8>, p: nat) -> (Seq<u16>, Seq<u8>)
    decreases s.len(),
{
    if s.len() < 12 {
        (seq![], s)
    } else if !starts_with_user_frame1_marker(s) {
        scan_ack_frames(s.skip(1), p)
    } else {
        let total = USER_FRAME_OVERHEAD + frame_data_len(s);
        if total > s.len() {
            (seq![], s)
        } else if checksum_spec(s.take(total - 1)) != s[total - 1] {
            scan_ack_frames(s.skip(1), p)
        } else {
            let rest = scan_ack_frames(s.skip(total), p);
            if carries_ack(s, p) {
                (seq![le16(s[12], s[13]) as u16] + rest.0, rest.1)
            } else {
                rest
            }
        }
    }
}

/// Takes every complete user frame out of the pending bytes `buf`; returns the
/// sequence numbers acknowledged by those that carry an acknowledgement for
/// payloads of `payload_sz` bytes, each paired with `now_ns`, in order.
pub fn scan_user_frame1(buf: &mut Vec<u8>, payload_sz: usize, now_ns: u64) -> (found: Vec<(u16, u64)>)
    requires
        payload_sz >= 4,
    ensures
        found@ == stamp(scan_ack_frames(old(buf)@, payload_sz as nat).0, now_ns),
        final(buf)@ == scan_ack_frames(old(buf)@, payload_sz as nat).1,
{
    let p = payload_sz;
    let ghost all = buf@;
    let ghost mut seqs: Seq<u16> = seq![];
    let mut found: Vec<(u16, u64)> = Vec::new();
    let mut start: usize = 0;
    assert(all.skip(0) =~= all);
    assert(seq![] + scan_ack_frames(all, p as nat).0 =~= scan_ack_frames(all, p as nat).0);
    while buf.len() - start >= 12
        invariant_except_break
            buf@ == all,
            p >= 4,
            start <= buf@.len(),
            found@ == stamp(seqs, now_ns),
            scan_ack_frames(all, p as nat) == (seqs + scan_ack_frames(all.skip(start as int), p as nat).0,
                scan_ack_frames(all.skip(start as int), p as nat).1),
        ensures
            buf@ == all,
            start <= buf@.len(),
            found@ == stamp(seqs, now_ns),
            scan_ack_frames(all, p as nat) == (seqs, all.skip(start as int)),
        decreases buf@.len() - start,
    {
        let ghost s = all.skip(start as int);
        if buf[start] != HEADER_WRITE || buf[start + 1] != MARK_USER_FRAME1 {
            assert(s.skip(1) =~= all.skip(start + 1));
            start = start + 1;
            continue;
        }
        let dlen: usize = buf[start + 8] as usize + 256 * (buf[start + 9] as usize);
        let total: usize = USER_FRAME_OVERHEAD + dlen;
        if total > buf.len() - start {
            assert(seqs + Seq::<u16>::empty() =~= seqs);
            break;
        }
        let cs = checksum_of_range(buf.as_slice(), start, start + total - 1);
        assert(buf@.subrange(start as int, start + total - 1) =~= s.take(total - 1));
        if cs != buf[start + total - 1] {
            assert(s.skip(1) =~= all.skip(start + 1));
            start = start + 1;
            continue;
        }
        assert(s.skip(total as int) =~= all.skip(start + total));
        if dlen >= p && buf[start + 10] == SYNC1 && buf[start + 11] == SYNC0 {
            let seq: u16 = buf[start + 12] as u16 + 256 * (buf[start + 13] as u16);
            proof {
                let before = seqs;
                seqs = seqs.push(seq);
                assert(stamp(seqs, now_ns) =~= stamp(before, now_ns).push((seq, now_ns)));
                assert(before.push(seq) + scan_ack_frames(s.skip(total as int), p as nat).0 =~= before + (
                seq![seq] + scan_ack_frames(s.skip(total as int), p as nat).0));
            }
            found.push((seq, now_ns));
        }
        start = start + total;
    }
    let rest = copy_range(buf.as_slice(), start, buf.len());
    assert(rest@ =~= all.skip(start as int));
    *buf = rest;
    found
}

/// A packed payload of `p >= 12` bytes followed by any bytes `rest` is found by
/// the raw scan: it gives the payload's sequence number and then whatever
/// scanning `rest` alone gives.
pub proof fn lemma_scan_raw_payload_then(seq: u16, timestamp_bits: u64, p: nat, rest: Seq<u8>)
    requires
        p >= PAYLOAD_HEADER_SIZE,
    ensures
        scan_raw_spec(payload_image(seq, timestamp_bits, p) + rest, p) == (seq![seq] + scan_raw_spec(
            rest,
            p,
        ).0, scan_raw_spec(rest, p).1),
{
    crate::payload::lemma_unpack_pack(seq, timestamp_bits, p);
    crate::wire::lemma_le16_of_bytes(seq as int);
    let s = payload_image(seq, timestamp_bits, p) + rest;
    assert(s.skip(p as int) =~= rest);
}

/// A user frame carrying the acknowledgement of `seq` for payloads of `p` bytes,
/// followed by any bytes `rest`, is found by the acknowledgement scan: it gives
/// `seq` and then whatever scanning `rest` alone gives.
pub proof fn lemma_scan_ack_frame_then(remote_role: u8, remote_id: u8, seq: u16, p: nat, rest: Seq<u8>)
    requires
        4 <= p < 65536,
    ensures
        scan_ack_frames(user_frame1(remote_role, remote_id, ack_payload(seq, p)) + rest, p) == (seq![seq]
            + scan_ack_frames(rest, p).0, scan_ack_frames(rest, p).1),
{
    let payload = ack_payload(seq, p);
    crate::protocol::lemma_ack_roundtrip(seq, p);
    crate::wire::lemma_le16_of_bytes(p as int);
    crate::wire::lemma_le16_of_bytes(seq as int);
    let f = user_frame1(remote_role, remote_id, payload);
    let s = f + rest;
    let body = user_frame1_header(remote_role, remote_id, p) + payload;
    let total = USER_FRAME_OVERHEAD + p;
    assert(frame_data_len(s) == p);
    assert(s.take(total - 1) =~= body);
    assert(s[total - 1] == crate::wire::checksum_spec(body));
    assert(s.skip(total as int) =~= rest);
    assert(s[10] == payload[0] && s[11] == payload[1] && s[12] == payload[2] && s[13] == payload[3]);
}

/// The raw scan does not depend on how the stream is cut (see
/// [`crate::payload::lemma_scan_payloads_split`]).
pub proof fn lemma_scan_raw_split(s: Seq<u8>, t: Seq<u8>, p: nat)
    ensures
        scan_raw_spec(s + t, p) == (scan_raw_spec(s, p).0 + scan_raw_spec(scan_raw_spec(s, p).1 + t, p).0,
            scan_raw_spec(scan_raw_spec(s, p).1 + t, p).1),
    decreases s.len(),
{
    let st = s + t;
    if p < 4 || s.len() < p {
        assert(Seq::<u16>::empty() + scan_raw_spec(st, p).0 =~= scan_raw_spec(st, p).0);
    } else {
        assert(st[0] == s[0] && st[1] == s[1] && st[2] == s[2] && st[3] == s[3]);
        if s[0] == SYNC0 && s[1] == SYNC1 {
            assert(st.skip(p as int) =~= s.skip(p as int) + t);
            lemma_scan_raw_split(s.skip(p as int), t, p);
            let q = le16(s[2], s[3]) as u16;
            let rest = scan_raw_spec(s.skip(p as int), p);
            let later = scan_raw_spec(rest.1 + t, p);
            assert(seq![q] + (rest.0 + later.0) =~= (seq![q] + rest.0) + later.0);
        } else {
            assert(st.skip(1) =~= s.skip(1) + t);
            lemma_scan_raw_split(s.skip(1), t, p);
        }
    }
}

/// The acknowledgement scan does not depend on how the stream is cut (see
/// [`crate::nlink::lemma_scan_user_frames_split`]).
pub proof fn lemma_scan_ack_frames_split(s: Seq<u8>, t: Seq<u8>, p: nat)
    requires
        p >= 4,
    ensures
        scan_ack_frames(s + t, p) == (scan_ack_frames(s, p).0 + scan_ack_frames(scan_ack_frames(s, p).1 + t, p).0,
            scan_ack_frames(scan_ack_frames(s, p).1 + t, p).1),
    decreases s.len(),
{
    let st = s + t;
    if s.len() < 12 {
        assert(Seq::<u16>::empty() + scan_ack_frames(st, p).0 =~= scan_ack_frames(st, p).0);
    } else {
        assert(st[0] == s[0] && st[1] == s[1] && st[8] == s[8] && st[9] == s[9]);
        assert(st[10] == s[10] && st[11] == s[11]);
        if !starts_with_user_frame1_marker(s) {
            assert(st.skip(1) =~= s.skip(1) + t);
            lemma_scan_ack_frames_split(s.skip(1), t, p);
        } else {
            let total = USER_FRAME_OVERHEAD + frame_data_len(s);
            if total > s.len() {
                assert(Seq::<u16>::empty() + scan_ack_frames(st, p).0 =~= scan_ack_frames(st, p).0);
            } else {
                assert(st.take(total - 1) =~= s.take(total - 1));
                assert(st[total - 1] == s[total - 1]);
                if checksum_spec(s.take(total - 1)) != s[total - 1] {
                    assert(st.skip(1) =~= s.skip(1) + t);
                    lemma_scan_ack_frames_split(s.skip(1), t, p);
                } else {
                    assert(st.skip(total) =~= s.skip(total) + t);
                    lemma_scan_ack_frames_split(s.skip(total), t, p);
                    let rest = scan_ack_frames(s.skip(total), p);
                    let later = scan_ack_frames(rest.1 + t, p);
                    if carries_ack(s, p) {
                        assert(st[12] == s[12] && st[13] == s[13]);
                        let q = le16(s[12], s[13]) as u16;
                        assert(seq![q] + (rest.0 + later.0) =~= (seq![q] + rest.0) + later.0);
                    }
                }
            }
        }
    }
}

} // verus!
