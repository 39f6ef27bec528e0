//! The test payload: two sync bytes, a 16-bit sequence number and a 64-bit
//! send timestamp, padded with zeros; and the buffer that picks such payloads
//! out of the byte stream read from a slave.
use vstd::prelude::*;
use vstd::bytes::{spec_u64_to_le_bytes, spec_u64_from_le_bytes, u64_to_le_bytes, u64_from_le_bytes};
use vstd::slice::slice_subrange;
use crate::wire::{le16, low_byte, high_byte, copy_range, append_bytes, arrive};
use crate::small_vec::{SmallVec, first_n};

verus! {

/// First sync byte of a payload.
pub const SYNC0: u8 = 0xA5;
/// Second sync byte of a payload.
pub const SYNC1: u8 = 0x5A;
/// Bytes of a payload taken by the sync bytes, the sequence number and the timestamp.
pub const PAYLOAD_HEADER_SIZE: usize = 12;
/// How many unconsumed bytes a [`RecvBuffer`] holds at most.
pub const RECV_BUFFER_CAPACITY: usize = 65536;
/// How many payloads one call of [`RecvBuffer::feed`] reports at most.
pub const FEED_RESULTS_MAX: usize = 16;

/// The bytes [`pack_payload`] writes into a buffer of `len >= 12` bytes: the two
/// sync bytes, `seq` low byte first, the eight bytes of `timestamp_bits` low byte
/// first, and zeros.
pub open spec fn payload_image(seq: u16, timestamp_bits: u64, len: nat) -> Seq<u8> {
    seq![SYNC0, SYNC1, low_byte(seq as int), high_byte(seq as int)] + spec_u64_to_le_bytes(
        timestamp_bits,
    ) + Seq::new((len - PAYLOAD_HEADER_SIZE) as nat, |i: int| 0u8)
}

/// What [`unpack_payload`] reads out of `data`: nothing when it is shorter than
/// the header or does not start with the sync bytes; else the sequence number
/// and the bits of the timestamp.
pub open spec fn unpack_spec(data: Seq<u8>) -> Option<(u16, u64)> {
    if data.len() < PAYLOAD_HEADER_SIZE || data[0] != SYNC0 || data[1] != SYNC1 {
        None
    } else {
        Some((le16(data[2], data[3]) as u16, spec_u64_from_le_bytes(data.subrange(4, 12))))
    }
}

/// Writes a payload for `seq` sent at the time whose bits are `timestamp_bits`
/// (the bits of an `f64` number of seconds) into `dst`, and zeros after it.
pub fn pack_payload(dst: &mut [u8], seq: u16, timestamp_bits: u64)
    requires
        old(dst)@.len() >= PAYLOAD_HEADER_SIZE,
    ensures
        final(dst)@ == payload_image(seq, timestamp_bits, old(dst)@.len()),
{
    dst[0] = SYNC0;
    dst[1] = SYNC1;
    dst[2] = (seq % 256) as u8;
    dst[3] = ((seq / 256) % 256) as u8;
    let ts = u64_to_le_bytes(timestamp_bits);
    let mut i: usize = 0;
    while i < 8
        invariant
            0 <= i <= 8,
            old(dst)@.len() >= PAYLOAD_HEADER_SIZE,
            ts@ == spec_u64_to_le_bytes(timestamp_bits),
            ts@.len() == 8,
            dst@.len() == old(dst)@.len(),
            dst@[0] == SYNC0,
            dst@[1] == SYNC1,
            dst@[2] == low_byte(seq as int),
            dst@[3] == high_byte(seq as int),
            forall|k: int| 0 <= k < i ==> dst@[4 + k] == ts@[k],
        decreases 8 - i,
    {
        dst[4 + i] = ts[i];
        i = i + 1;
    }
    let mut j: usize = PAYLOAD_HEADER_SIZE;
    while j < dst.len()
        invariant
            PAYLOAD_HEADER_SIZE <= j <= dst@.len(),
            ts@ == spec_u64_to_le_bytes(timestamp_bits),
            ts@.len() == 8,
            dst@.len() == old(dst)@.len(),
            dst@[0] == SYNC0,
            dst@[1] == SYNC1,
            dst@[2] == low_byte(seq as int),
            dst@[3] == high_byte(seq as int),
            forall|k: int| 0 <= k < 8 ==> dst@[4 + k] == ts@[k],
            forall|k: int| PAYLOAD_HEADER_SIZE <= k < j ==> dst@[k] == 0u8,
        decreases dst@.len() - j,
    {
        dst[j] = 0;
        j = j + 1;
    }
    assert(dst@ =~= payload_image(seq, timestamp_bits, old(dst)@.len()));
}

/// Reads the sequence number and the bits of the timestamp out of a payload.
pub fn unpack_payload(data: &[u8]) -> (r: Option<(u16, u64)>)
    ensures
        r == unpack_spec(data@),
{
    if data.len() < PAYLOAD_HEADER_SIZE {
        return None;
    }
    if data[0] != SYNC0 || data[1] != SYNC1 {
        return None;
    }
    let seq: u16 = data[2] as u16 + 256 * (data[3] as u16);
    let ts = u64_from_le_bytes(slice_subrange(data, 4, 12));
    Some((seq, ts))
}

/// What unpacking gives back of a packed payload.
pub proof fn lemma_unpack_pack(seq: u16, timestamp_bits: u64, len: nat)
    requires
        len >= PAYLOAD_HEADER_SIZE,
    ensures
        payload_image(seq, timestamp_bits, len).len() == len,
        unpack_spec(payload_image(seq, timestamp_bits, len)) == Some((seq, timestamp_bits)),
{
    vstd::bytes::lemma_auto_spec_u64_to_from_le_bytes();
    let img = payload_image(seq, timestamp_bits, len);
    assert(img.subrange(4, 12) =~= spec_u64_to_le_bytes(timestamp_bits));
    crate::wire::lemma_le16_of_bytes(seq as int);
}

/// Scanning received bytes for payloads of `p` bytes.  Returns the sequence
/// numbers of the payloads found, in order, and the bytes left over.  While at
/// least `p` bytes remain: when the front starts with the two sync bytes, `p`
/// bytes are consumed and their sequence number is kept if they unpack; otherwise
/// one byte is skipped.
pub open spec fn scan_payloads(s: Seq<u8>, p: nat) -> (Seq<u16>, Seq<u8>)
    decreases s.len(),
{
    if p == 0 || s.len() < p {
        (seq![], s)
    } else if s.len() >= 2 && s[0] == SYNC0 && s[1] == SYNC1 {
        let rest = scan_payloads(s.skip(p as int), p);
        match unpack_spec(s.take(p as int)) {
            Some((seq, _)) => (seq![seq] + rest.0, rest.1),
            None => rest,
        }
    } else {
        scan_payloads(s.skip(1), p)
    }
}

/// Each sequence number of `seqs` paired with the time `t`.
pub open spec fn stamp(seqs: Seq<u16>, t: u64) -> Seq<(u16, u64)> {
    seqs.map_values(|q: u16| (q, t))
}

/// A packed payload of `p` bytes followed by any bytes `rest` is recognised in
/// full: scanning gives back its sequence number and then whatever scanning
/// `rest` alone gives.
pub proof fn lemma_scan_payload_then(seq: u16, timestamp_bits: u64, p: nat, rest: Seq<u8>)
    requires
        p >= PAYLOAD_HEADER_SIZE,
    ensures
        scan_payloads(payload_image(seq, timestamp_bits, p) + rest, p) == (seq![seq] + scan_payloads(
            rest,
            p,
        ).0, scan_payloads(rest, p).1),
{
    lemma_unpack_pack(seq, timestamp_bits, p);
    let img = payload_image(seq, timestamp_bits, p);
    let s = img + rest;
    assert(s.take(p as int) =~= img);
    assert(s.skip(p as int) =~= rest);
}

/// Feeding an empty buffer with one payload packed for its size reports exactly
/// that payload's sequence number and leaves nothing pending.
pub proof fn lemma_feed_packed_payload(seq: u16, timestamp_bits: u64, p: nat, recv_ns: u64)
    requires
        PAYLOAD_HEADER_SIZE <= p <= RECV_BUFFER_CAPACITY,
    ensures
        ({
            let scanned = scan_payloads(
                arrive(Seq::<u8>::empty(), payload_image(seq, timestamp_bits, p), RECV_BUFFER_CAPACITY as nat),
                p,
            );
            &&& first_n(stamp(scanned.0, recv_ns), FEED_RESULTS_MAX as nat) == seq![(seq, recv_ns)]
            &&& scanned.1 == Seq::<u8>::empty()
        }),
{
    let img = payload_image(seq, timestamp_bits, p);
    let empty = Seq::<u8>::empty();
    lemma_unpack_pack(seq, timestamp_bits, p);
    assert(empty + img =~= img);
    assert(img + empty =~= img);
    lemma_scan_payload_then(seq, timestamp_bits, p, empty);
    assert(seq![seq] + Seq::<u16>::empty() =~= seq![seq]);
    assert(stamp(seq![seq], recv_ns) =~= seq![(seq, recv_ns)]);
}

/// What scanning leaves over is never longer than what was scanned.
pub proof fn lemma_scan_payloads_leftover(s: Seq<u8>, p: nat)
    ensures
        scan_payloads(s, p).1.len() <= s.len(),
    decreases s.len(),
{
    if p != 0 && s.len() >= p {
        if s.len() >= 2 && s[0] == SYNC0 && s[1] == SYNC1 {
            lemma_scan_payloads_leftover(s.skip(p as int), p);
        } else {
            lemma_scan_payloads_leftover(s.skip(1), p);
        }
    }
}

/// Scanning does not depend on how the stream is cut: scanning `s` and then
/// what it left over followed by `t` finds the same payloads, in the same order,
/// and leaves the same bytes over, as scanning `s` and `t` together.
pub proof fn lemma_scan_payloads_split(s: Seq<u8>, t: Seq<u8>, p: nat)
    ensures
        scan_payloads(s + t, p) == (scan_payloads(s, p).0 + scan_payloads(scan_payloads(s, p).1 + t, p).0,
            scan_payloads(scan_payloads(s, p).1 + t, p).1),
    decreases s.len(),
{
    let st = s + t;
    if p == 0 || s.len() < p {
        assert(Seq::<u16>::empty() + scan_payloads(st, p).0 =~= scan_payloads(st, p).0);
    } else {
        let synced_s = s.len() >= 2 && s[0] == SYNC0 && s[1] == SYNC1;
        let synced_st = st.len() >= 2 && st[0] == SYNC0 && st[1] == SYNC1;
        assert(st.take(p as int) =~= s.take(p as int));
        assert(st.skip(p as int) =~= s.skip(p as int) + t);
        assert(st.skip(1) =~= s.skip(1) + t);
        if synced_s {
            assert(synced_st);
            lemma_scan_payloads_split(s.skip(p as int), t, p);
            let rest = scan_payloads(s.skip(p as int), p);
            let later = scan_payloads(rest.1 + t, p);
            match unpack_spec(s.take(p as int)) {
                Some((q, _)) => {
                    assert(seq![q] + (rest.0 + later.0) =~= (seq![q] + rest.0) + later.0);
                },
                None => {},
            }
        } else if synced_st {
            assert(s.len() < 2 && p == 1);
            assert(unpack_spec(st.take(1)) is None);
            lemma_scan_payloads_split(s.skip(1), t, p);
        } else {
            lemma_scan_payloads_split(s.skip(1), t, p);
        }
    }
}

/// Feeding a buffer `a` and then `b` finds the same payloads, in the same order,
/// and leaves the same bytes pending, as feeding it `a` and `b` at once, as long
/// as everything fits in the buffer.
pub proof fn lemma_recv_in_pieces(pending: Seq<u8>, a: Seq<u8>, b: Seq<u8>, p: nat)
    requires
        pending.len() + a.len() + b.len() <= RECV_BUFFER_CAPACITY,
    ensures
        ({
            let first = scan_payloads(arrive(pending, a, RECV_BUFFER_CAPACITY as nat), p);
            let second = scan_payloads(arrive(first.1, b, RECV_BUFFER_CAPACITY as nat), p);
            let whole = scan_payloads(arrive(pending, a + b, RECV_BUFFER_CAPACITY as nat), p);
            &&& first.0 + second.0 == whole.0
            &&& second.1 == whole.1
        }),
{
    lemma_scan_payloads_leftover(pending + a, p);
    lemma_scan_payloads_split(pending + a, b, p);
    assert(pending + (a + b) =~= (pending + a) + b);
}

/// Picks payloads of a fixed size out of the bytes read from a slave.
pub struct RecvBuffer {
    pending: Vec<u8>,
    payload_size: usize,
}

impl View for RecvBuffer {
    type V = Seq<u8>;

    /// The bytes received and not consumed yet.
    closed spec fn view(&self) -> Seq<u8> {
        self.pending@
    }
}

impl RecvBuffer {
    /// The size of the payloads looked for.
    pub closed spec fn spec_payload_size(&self) -> nat {
        self.payload_size as nat
    }

    /// Well-formedness: the pending bytes fit in the buffer's capacity.
    pub open spec fn wf(&self) -> bool {
        self@.len() <= RECV_BUFFER_CAPACITY
    }

    /// An empty buffer looking for payloads of `payload_size` bytes.
    pub fn new(payload_size: usize) -> (rb: RecvBuffer)
        ensures
            rb.wf(),
            rb@ == Seq::<u8>::empty(),
            rb.spec_payload_size() == payload_size,
    {
        RecvBuffer { pending: Vec::new(), payload_size }
    }

    /// Adds `data`, received at `recv_ns`, to the pending bytes and takes every
    /// payload out of them.  Reports the sequence numbers of the first
    /// [`FEED_RESULTS_MAX`] payloads found, each with `recv_ns`.
    pub fn feed(&mut self, data: &[u8], recv_ns: u64) -> (results: SmallVec<(u16, u64), 16>)
        requires
            old(self).wf(),
            old(self).spec_payload_size() >= 1,
            data@.len() <= RECV_BUFFER_CAPACITY,
        ensures
            final(self).wf(),
            final(self).spec_payload_size() == old(self).spec_payload_size(),
            results.wf(),
            ({
                let scanned = scan_payloads(
                    arrive(old(self)@, data@, RECV_BUFFER_CAPACITY as nat),
                    old(self).spec_payload_size(),
                );
                &&& results@ == first_n(stamp(scanned.0, recv_ns), FEED_RESULTS_MAX as nat)
                &&& final(self)@ == scanned.1
            }),
    {
        let p = self.payload_size;
        let mut results: SmallVec<(u16, u64), 16> = SmallVec::new();
        let mut buf: Vec<u8> = if self.pending.len() + data.len() > RECV_BUFFER_CAPACITY {
            Vec::new()
        } else {
            let mut taken: Vec<u8> = Vec::new();
            std::mem::swap(&mut taken, &mut self.pending);
            taken
        };
        append_bytes(&mut buf, data);
        let ghost all = buf@;
        let ghost mut found: Seq<u16> = seq![];
        let mut start: usize = 0;
        assert(all.skip(0) =~= all);
        assert(seq![] + scan_payloads(all, p as nat).0 =~= scan_payloads(all, p as nat).0);
        while buf.len() - start >= p
            invariant
                buf@ == all,
                all.len() <= 2 * RECV_BUFFER_CAPACITY,
                p >= 1,
                start <= buf@.len(),
                results.wf(),
                results@ == first_n(stamp(found, recv_ns), FEED_RESULTS_MAX as nat),
                scan_payloads(all, p as nat) == (found + scan_payloads(all.skip(start as int), p as nat).0,
                    scan_payloads(all.skip(start as int), p as nat).1),
            decreases buf@.len() - start,
        {
            let ghost s = all.skip(start as int);
            if buf.len() - start >= 2 && buf[start] == SYNC0 && buf[start + 1] == SYNC1 {
                let u = unpack_payload(slice_subrange(buf.as_slice(), start, start + p));
                assert(buf@.subrange(start as int, start + p) =~= s.take(p as int));
                assert(s.skip(p as int) =~= all.skip(start + p));
                if let Some((seq, _ts)) = u {
                    proof {
                        let old_found = found;
                        found = found.push(seq);
                        assert(stamp(found, recv_ns) =~= stamp(old_found, recv_ns).push((seq, recv_ns)));
                        assert(old_found.push(seq) + scan_payloads(s.skip(p as int), p as nat).0
                            =~= old_found + (seq![seq] + scan_payloads(s.skip(p as int), p as nat).0));
                        if old_found.len() >= FEED_RESULTS_MAX {
                            assert(stamp(found, recv_ns).take(16) =~= stamp(old_found, recv_ns).take(16));
                        }
                    }
                    results.push((seq, recv_ns));
                }
                start = start + p;
            } else {
                assert(s.skip(1) =~= all.skip(start + 1));
                start = start + 1;
            }
        }
        self.pending = copy_range(buf.as_slice(), start, buf.len());
        assert(self.pending@ =~= all.skip(start as int));
        assert(found + Seq::<u16>::empty() =~= found);
        results
    }
}

} // verus!
