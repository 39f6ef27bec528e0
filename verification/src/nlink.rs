//! The NLink user frame (type 1): building frames that carry a payload to a
//! remote node, and scanning a byte stream for such frames.
use vstd::prelude::*;
use crate::wire::{byte_views, byte_sum, checksum_spec, le16, low_byte, high_byte, lemma_checksum_step,
    checksum_of_range, copy_range, append_bytes, arrive};

verus! {

/// First byte of a frame written to the module.
pub const HEADER_WRITE: u8 = 0x54;
/// First byte of a frame read from the module.
pub const HEADER_READ: u8 = 0x55;
/// Second byte of a user frame of type 1.
pub const MARK_USER_FRAME1: u8 = 0xF1;
/// Bytes of a user frame that are not payload: ten header bytes and a checksum.
pub const USER_FRAME_OVERHEAD: usize = 11;
/// How many unconsumed bytes a [`FrameBuffer`] holds at most.
pub const FRAME_BUFFER_CAPACITY: usize = 65536;

/// The role of a node in the UWB network, as carried in the remote-role byte.
#[derive(Debug, Clone, Copy, PartialEq, Eq, Structural)]
pub enum Role {
    Node,
    Anchor,
    Tag,
    Console,
    Master,
    Slave,
}

impl Role {
    /// The byte that stands for the role on the wire.
    pub open spec fn spec_code(self) -> u8 {
        match self {
            Role::Node => 0,
            Role::Anchor => 1,
            Role::Tag => 2,
            Role::Console => 3,
            Role::Master => 4,
            Role::Slave => 5,
        }
    }

    /// The byte that stands for the role on the wire.
    pub fn code(&self) -> (c: u8)
        ensures
            c == self.spec_code(),
    {
        match self {
            Role::Node => 0,
            Role::Anchor => 1,
            Role::Tag => 2,
            Role::Console => 3,
            Role::Master => 4,
            Role::Slave => 5,
        }
    }
}

/// The ten header bytes of a user frame for `role`/`id` carrying `len` payload bytes:
/// the length field holds `len` modulo 65536, low byte first.
pub open spec fn user_frame1_header(remote_role: u8, remote_id: u8, len: nat) -> Seq<u8> {
    seq![HEADER_WRITE, MARK_USER_FRAME1, 0xFFu8, 0xFFu8, 0xFFu8, 0xFFu8, remote_role, remote_id,
        low_byte(len as int), high_byte(len as int)]
}

/// A whole user frame: header, payload, and the checksum of everything before it.
pub open spec fn user_frame1(remote_role: u8, remote_id: u8, payload: Seq<u8>) -> Seq<u8> {
    let body = user_frame1_header(remote_role, remote_id, payload.len()) + payload;
    body.push(checksum_spec(body))
}

/// The sum of all bytes of `data` modulo 256.
pub fn checksum(data: &[u8]) -> (cs: u8)
    ensures
        cs == checksum_spec(data@),
{
    let mut sum: u32 = 0;
    let mut i: usize = 0;
    while i < data.len()
        invariant
            0 <= i <= data@.len(),
            sum < 256,
            sum == byte_sum(data@.take(i as int)) % 256,
        decreases data@.len() - i,
    {
        proof {
            lemma_checksum_step(data@, i as int, sum as int);
        }
        sum = (sum + data[i] as u32) % 256;
        i = i + 1;
    }
    assert(data@.take(data@.len() as int) =~= data@);
    sum as u8
}

/// Builds a user frame that sends `payload` to the node `remote_id` of role `remote_role`.
pub fn build_user_frame1(remote_role: u8, remote_id: u8, payload: &[u8]) -> (frame: Vec<u8>)
    requires
        payload@.len() + USER_FRAME_OVERHEAD <= usize::MAX,
    ensures
        frame@ == user_frame1(remote_role, remote_id, payload@),
{
    let len = payload.len();
    let mut buf: Vec<u8> = Vec::with_capacity(len + USER_FRAME_OVERHEAD);
    buf.push(HEADER_WRITE);
    buf.push(MARK_USER_FRAME1);
    buf.push(0xFF);
    buf.push(0xFF);
    buf.push(0xFF);
    buf.push(0xFF);
    buf.push(remote_role);
    buf.push(remote_id);
    buf.push((len % 256) as u8);
    buf.push(((len / 256) % 256) as u8);
    assert(buf@ =~= user_frame1_header(remote_role, remote_id, len as nat));
    append_bytes(&mut buf, payload);
    let cs = checksum(buf.as_slice());
    buf.push(cs);
    buf
}

/// Builds a user frame addressed to every node.
pub fn build_broadcast_frame(payload: &[u8]) -> (frame: Vec<u8>)
    requires
        payload@.len() + USER_FRAME_OVERHEAD <= usize::MAX,
    ensures
        frame@ == user_frame1(Role::Node.spec_code(), 0xFF, payload@),
{
    build_user_frame1(Role::Node.code(), 0xFF, payload)
}

/// Builds a user frame addressed to the slave `slave_id`.
pub fn build_unicast_frame(slave_id: u8, payload: &[u8]) -> (frame: Vec<u8>)
    requires
        payload@.len() + USER_FRAME_OVERHEAD <= usize::MAX,
    ensures
        frame@ == user_frame1(Role::Slave.spec_code(), slave_id, payload@),
{
    build_user_frame1(Role::Slave.code(), slave_id, payload)
}

/// A built frame is eleven bytes longer than its payload and names the role and
/// the id it was built for in bytes 6 and 7.
pub proof fn lemma_frame_addressing(remote_role: u8, remote_id: u8, payload: Seq<u8>)
    ensures
        user_frame1(remote_role, remote_id, payload).len() == payload.len() + USER_FRAME_OVERHEAD,
        user_frame1(remote_role, remote_id, payload)[6] == remote_role,
        user_frame1(remote_role, remote_id, payload)[7] == remote_id,
        user_frame1(Role::Node.spec_code(), 0xFF, payload)[6] == 0,
        user_frame1(Role::Slave.spec_code(), remote_id, payload)[6] == 5,
{
}

/// The value of the length field of a frame that starts at the front of `s`.
pub open spec fn frame_data_len(s: Seq<u8>) -> int {
    le16(s[8], s[9])
}

/// Whether `s` starts with the two marker bytes of a user frame.
pub open spec fn starts_with_user_frame1_marker(s: Seq<u8>) -> bool {
    s[0] == HEADER_WRITE && s[1] == MARK_USER_FRAME1
}

/// Scanning a stream for user frames.  Returns the payloads of the frames found,
/// in order, and the bytes left over for a later scan.  At each position: a byte
/// that does not start a frame marker, or a frame whose checksum does not match,
/// is skipped one byte at a time; a frame that is not complete yet stops the scan;
/// a good frame is consumed whole and its payload is kept when it has at least
/// four bytes.
pub open spec fn scan_user_frames(s: Seq<u8>) -> (Seq<Seq<u8>>, Seq<u8>)
    decreases s.len(),
{
    if s.len() < USER_FRAME_OVERHEAD {
        (seq![], s)
    } else if !starts_with_user_frame1_marker(s) {
        scan_user_frames(s.skip(1))
    } else {
        let total = USER_FRAME_OVERHEAD + frame_data_len(s);
        if total > s.len() {
            (seq![], s)
        } else if checksum_spec(s.take(total - 1)) != s[total - 1] {
            scan_user_frames(s.skip(1))
        } else {
            let rest = scan_user_frames(s.skip(total));
            if frame_data_len(s) >= 4 {
                (seq![s.subrange(10, total - 1)] + rest.0, rest.1)
            } else {
                rest
            }
        }
    }
}

/// A frame built for a payload of fewer than 65536 bytes, followed by any bytes
/// `rest`, is recognised in full: scanning gives back its payload (when it has
/// at least four bytes) and then whatever scanning `rest` alone gives.
pub proof fn lemma_scan_frame_then(remote_role: u8, remote_id: u8, payload: Seq<u8>, rest: Seq<u8>)
    requires
        payload.len() < 65536,
    ensures
        scan_user_frames(user_frame1(remote_role, remote_id, payload) + rest) == (if payload.len() >= 4 {
            (seq![payload] + scan_user_frames(rest).0, scan_user_frames(rest).1)
        } else {
            scan_user_frames(rest)
        }),
{
    let f = user_frame1(remote_role, remote_id, payload);
    let s = f + rest;
    let n = payload.len();
    let body = user_frame1_header(remote_role, remote_id, n) + payload;
    crate::wire::lemma_le16_of_bytes(n as int);
    assert(s[8] == low_byte(n as int) && s[9] == high_byte(n as int));
    assert(frame_data_len(s) == n);
    let total = USER_FRAME_OVERHEAD + n;
    assert(s.take(total - 1) =~= body);
    assert(s[total - 1] == checksum_spec(body));
    assert(s.skip(total as int) =~= rest);
    assert(s.subrange(10, total - 1) =~= payload);
}

/// Feeding an empty buffer with one frame built by [`build_user_frame1`] gives
/// back exactly its payload (or nothing, for a payload shorter than four bytes)
/// and leaves nothing pending.
pub proof fn lemma_feed_built_frame(remote_role: u8, remote_id: u8, payload: Seq<u8>)
    requires
        payload.len() + USER_FRAME_OVERHEAD <= FRAME_BUFFER_CAPACITY,
    ensures
        scan_user_frames(arrive(Seq::<u8>::empty(), user_frame1(remote_role, remote_id, payload),
            FRAME_BUFFER_CAPACITY as nat)) == (if payload.len() >= 4 {
            seq![payload]
        } else {
            Seq::<Seq<u8>>::empty()
        }, Seq::<u8>::empty()),
{
    let f = user_frame1(remote_role, remote_id, payload);
    let empty = Seq::<u8>::empty();
    assert(empty + f =~= f);
    assert(f + empty =~= f);
    lemma_scan_frame_then(remote_role, remote_id, payload, empty);
    assert(scan_user_frames(empty) == (Seq::<Seq<u8>>::empty(), empty));
    assert(seq![payload] + Seq::<Seq<u8>>::empty() =~= seq![payload]);
}

/// What scanning leaves over is never longer than what was scanned.
pub proof fn lemma_scan_user_frames_leftover(s: Seq<u8>)
    ensures
        scan_user_frames(s).1.len() <= s.len(),
    decreases s.len(),
{
    if s.len() >= USER_FRAME_OVERHEAD {
        if !starts_with_user_frame1_marker(s) {
            lemma_scan_user_frames_leftover(s.skip(1));
        } else {
            let total = USER_FRAME_OVERHEAD + frame_data_len(s);
            if total <= s.len() {
                if checksum_spec(s.take(total - 1)) != s[total - 1] {
                    lemma_scan_user_frames_leftover(s.skip(1));
                } else {
                    lemma_scan_user_frames_leftover(s.skip(total));
                }
            }
        }
    }
}

/// Scanning does not depend on how the stream is cut: scanning `s` and then
/// what it left over followed by `t` finds the same frames, in the same order,
/// and leaves the same bytes over, as scanning `s` and `t` together.
pub proof fn lemma_scan_user_frames_split(s: Seq<u8>, t: Seq<u8>)
    ensures
        scan_user_frames(s + t) == (scan_user_frames(s).0 + scan_user_frames(scan_user_frames(s).1 + t).0,
            scan_user_frames(scan_user_frames(s).1 + t).1),
    decreases s.len(),
{
    let st = s + t;
    if s.len() < USER_FRAME_OVERHEAD {
        assert(Seq::<Seq<u8>>::empty() + scan_user_frames(st).0 =~= scan_user_frames(st).0);
    } else {
        assert(st[0] == s[0] && st[1] == s[1] && st[8] == s[8] && st[9] == s[9]);
        if !starts_with_user_frame1_marker(s) {
            assert(st.skip(1) =~= s.skip(1) + t);
            lemma_scan_user_frames_split(s.skip(1), t);
        } else {
            let total = USER_FRAME_OVERHEAD + frame_data_len(s);
            if total > s.len() {
                assert(Seq::<Seq<u8>>::empty() + scan_user_frames(st).0 =~= scan_user_frames(st).0);
            } else {
                assert(st.take(total - 1) =~= s.take(total - 1));
                assert(st[total - 1] == s[total - 1]);
                if checksum_spec(s.take(total - 1)) != s[total - 1] {
                    assert(st.skip(1) =~= s.skip(1) + t);
                    lemma_scan_user_frames_split(s.skip(1), t);
                } else {
                    assert(st.skip(total) =~= s.skip(total) + t);
                    assert(st.subrange(10, total - 1) =~= s.subrange(10, total - 1));
                    lemma_scan_user_frames_split(s.skip(total), t);
                    let rest = scan_user_frames(s.skip(total));
                    let later = scan_user_frames(rest.1 + t);
                    assert(seq![s.subrange(10, total - 1)] + (rest.0 + later.0) =~= (seq![
                        s.subrange(10, total - 1),
                    ] + rest.0) + later.0);
                }
            }
        }
    }
}

/// Feeding a buffer `a` and then `b` finds the same payloads, in the same order,
/// and leaves the same bytes pending, as feeding it `a` and `b` at once, as long
/// as everything fits in the buffer.
pub proof fn lemma_feed_in_pieces(pending: Seq<u8>, a: Seq<u8>, b: Seq<u8>)
    requires
        pending.len() + a.len() + b.len() <= FRAME_BUFFER_CAPACITY,
    ensures
        ({
            let first = scan_user_frames(arrive(pending, a, FRAME_BUFFER_CAPACITY as nat));
            let second = scan_user_frames(arrive(first.1, b, FRAME_BUFFER_CAPACITY as nat));
            let whole = scan_user_frames(arrive(pending, a + b, FRAME_BUFFER_CAPACITY as nat));
            &&& first.0 + second.0 == whole.0
            &&& second.1 == whole.1
        }),
{
    lemma_scan_user_frames_leftover(pending + a);
    lemma_scan_user_frames_split(pending + a, b);
    assert(pending + (a + b) =~= (pending + a) + b);
}

/// Reassembles user frames out of the bytes read from the serial port.
pub struct FrameBuffer {
    pending: Vec<u8>,
}

impl View for FrameBuffer {
    type V = Seq<u8>;

    /// The bytes received and not consumed yet.
    closed spec fn view(&self) -> Seq<u8> {
        self.pending@
    }
}

impl FrameBuffer {
    /// Well-formedness: the pending bytes fit in the buffer's capacity.
    pub open spec fn wf(&self) -> bool {
        self@.len() <= FRAME_BUFFER_CAPACITY
    }

    /// An empty buffer.
    pub fn new() -> (fb: FrameBuffer)
        ensures
            fb.wf(),
            fb@ == Seq::<u8>::empty(),
    {
        FrameBuffer { pending: Vec::new() }
    }

    /// Drops every pending byte.
    pub fn clear(&mut self)
        ensures
            final(self).wf(),
            final(self)@ == Seq::<u8>::empty(),
    {
        self.pending = Vec::new();
    }

    /// Adds `data` to the pending bytes and takes every complete frame out of them.
    /// Returns the payloads of the frames found that carry at least four bytes.
    pub fn feed(&mut self, data: &[u8]) -> (payloads: Vec<Vec<u8>>)
        requires
            old(self).wf(),
            data@.len() <= FRAME_BUFFER_CAPACITY,
        ensures
            final(self).wf(),
            (byte_views(payloads@), final(self)@) == scan_user_frames(
                arrive(old(self)@, data@, FRAME_BUFFER_CAPACITY as nat),
            ),
    {
        let mut buf: Vec<u8> = if self.pending.len() + data.len() > FRAME_BUFFER_CAPACITY {
            Vec::new()
        } else {
            let mut taken: Vec<u8> = Vec::new();
            std::mem::swap(&mut taken, &mut self.pending);
            taken
        };
        append_bytes(&mut buf, data);
        let ghost all = buf@;
        assert(all == arrive(old(self)@, data@, FRAME_BUFFER_CAPACITY as nat));
        let mut payloads: Vec<Vec<u8>> = Vec::new();
        let mut start: usize = 0;
        assert(all.skip(0) =~= all);
        assert(byte_views(payloads@) =~= Seq::<Seq<u8>>::empty());
        while buf.len() - start >= USER_FRAME_OVERHEAD
            invariant_except_break
                buf@ == all,
                all.len() <= 2 * FRAME_BUFFER_CAPACITY,
                start <= buf@.len(),
                scan_user_frames(all) == (byte_views(payloads@) + scan_user_frames(all.skip(start as int)).0,
                    scan_user_frames(all.skip(start as int)).1),
            ensures
                buf@ == all,
                start <= buf@.len(),
                scan_user_frames(all) == (byte_views(payloads@), all.skip(start as int)),
            decreases buf@.len() - start,
        {
            let ghost s = all.skip(start as int);
            if buf[start] != HEADER_WRITE || buf[start + 1] != MARK_USER_FRAME1 {
                assert(s.skip(1) =~= all.skip(start + 1));
                start = start + 1;
                continue;
            }
            let dlen: usize = buf[start + 8] as usize + 256 * (buf[start + 9] as usize);
            let total: usize = USER_FRAME_OVERHEAD + dlen;
            assert(dlen == frame_data_len(s));
            if total > buf.len() - start {
                assert(byte_views(payloads@) + Seq::<Seq<u8>>::empty() =~= byte_views(payloads@));
                break;
            }
            let cs = checksum_of_range(buf.as_slice(), start, start + total - 1);
            assert(buf@.subrange(start as int, start + total - 1) =~= s.take(total - 1));
            if cs != buf[start + total - 1] {
                assert(s.skip(1) =~= all.skip(start + 1));
                start = start + 1;
                continue;
            }
            assert(s.skip(total as int) =~= all.skip(start + total));
            if dlen >= 4 {
                let p = copy_range(buf.as_slice(), start + 10, start + total - 1);
                assert(p@ =~= s.subrange(10, total - 1));
                let ghost before = byte_views(payloads@);
                payloads.push(p);
                assert(byte_views(payloads@) =~= before.push(p@));
                assert(before.push(p@) + scan_user_frames(s.skip(total as int)).0
                    =~= before + (seq![s.subrange(10, total - 1)] + scan_user_frames(s.skip(total as int)).0));
            }
            start = start + total;
        }
        self.pending = copy_range(buf.as_slice(), start, buf.len());
        assert(self.pending@ =~= all.skip(start as int));
        payloads
    }
}

} // verus!
