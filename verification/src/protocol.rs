//! The small protocol between the master and slave programs: probes that find
//! the slaves online, and acknowledgements of test payloads.
use vstd::prelude::*;
use crate::wire::{le16, low_byte, high_byte};
use crate::payload::{SYNC0, SYNC1};

verus! {

/// Length of a probe payload and of a probe reply.
pub const PROBE_PAYLOAD_LEN: usize = 16;
/// Length of the acknowledgement payload of the master/slave test.
pub const ACK_PAYLOAD_LEN: usize = 16;

/// The four bytes that open a probe.
pub open spec fn probe_magic() -> Seq<u8> {
    seq![0xDEu8, 0xADu8, 0xBEu8, 0xEFu8]
}

/// The four bytes that open a reply to a probe.
pub open spec fn probe_reply_magic() -> Seq<u8> {
    seq![0xCAu8, 0xFEu8, 0xBAu8, 0xBEu8]
}

/// `n` zero bytes.
pub open spec fn zeros(n: nat) -> Seq<u8> {
    Seq::new(n, |i: int| 0u8)
}

/// The probe the master sends to the slave `id` in the probe round `probe_seq`.
pub open spec fn probe_payload(id: u8, probe_seq: u8) -> Seq<u8> {
    probe_magic() + seq![id, probe_seq] + zeros(10)
}

/// The reply a slave with id `responder_id` sends to a probe for `probed_id`.
pub open spec fn probe_reply_payload(probed_id: u8, responder_id: u8, probe_seq: u8) -> Seq<u8> {
    probe_reply_magic() + seq![probed_id, responder_id, probe_seq] + zeros(9)
}

/// The acknowledgement of the payload `seq`, `len` bytes long.
pub open spec fn ack_payload(seq: u16, len: nat) -> Seq<u8> {
    seq![SYNC1, SYNC0, low_byte(seq as int), high_byte(seq as int)] + zeros((len - 4) as nat)
}

/// What a slave reads out of received bytes: the probed id and the probe round,
/// when the bytes hold at least six bytes and open with the probe magic.
pub open spec fn probe_request_spec(data: Seq<u8>) -> Option<(u8, u8)> {
    if data.len() >= 6 && data.take(4) == probe_magic() {
        Some((data[4], data[5]))
    } else {
        None
    }
}

/// What the master reads out of a reply in the round `probe_seq`: the id of the
/// slave that answered, when the reply holds at least seven bytes, opens with the
/// reply magic, names the same id as probed and as answering, and is of the round.
pub open spec fn probe_responder_spec(payload: Seq<u8>, probe_seq: u8) -> Option<u8> {
    if payload.len() >= 7 && payload.take(4) == probe_reply_magic() && payload[4] == payload[5]
        && payload[6] == probe_seq {
        Some(payload[5])
    } else {
        None
    }
}

/// Whether a payload opens with the reply magic.
pub open spec fn is_probe_reply_spec(payload: Seq<u8>) -> bool {
    payload.len() >= 4 && payload.take(4) == probe_reply_magic()
}

/// What the master reads out of an acknowledgement: the acknowledged sequence
/// number, when the payload holds at least four bytes and opens with the two sync
/// bytes in reverse order.
pub open spec fn ack_spec(data: Seq<u8>) -> Option<u16> {
    if data.len() < 4 || data[0] != SYNC1 || data[1] != SYNC0 {
        None
    } else {
        Some(le16(data[2], data[3]) as u16)
    }
}

fn push_zeros(v: &mut Vec<u8>, n: usize)
    ensures
        final(v)@ == old(v)@ + zeros(n as nat),
{
    let mut i: usize = 0;
    while i < n
        invariant
            i <= n,
            v@ == old(v)@ + zeros(i as nat),
        decreases n - i,
    {
        v.push(0);
        i = i + 1;
        assert(zeros(i as nat) =~= zeros((i - 1) as nat).push(0u8));
    }
}

fn opens_with(data: &[u8], b0: u8, b1: u8, b2: u8, b3: u8) -> (r: bool)
    ensures
        r == (data@.len() >= 4 && data@.take(4) == seq![b0, b1, b2, b3]),
{
    if data.len() < 4 {
        return false;
    }
    let r = data[0] == b0 && data[1] == b1 && data[2] == b2 && data[3] == b3;
    assert(r ==> data@.take(4) =~= seq![b0, b1, b2, b3]);
    assert(data@.take(4) == seq![b0, b1, b2, b3] ==> data@.take(4)[0] == b0 && data@.take(4)[1] == b1
        && data@.take(4)[2] == b2 && data@.take(4)[3] == b3);
    r
}

/// Builds the probe for the slave `id` in the probe round `probe_seq`.
pub fn build_probe_payload(id: u8, probe_seq: u8) -> (p: Vec<u8>)
    ensures
        p@ == probe_payload(id, probe_seq),
{
    let mut v: Vec<u8> = Vec::with_capacity(PROBE_PAYLOAD_LEN);
    v.push(0xDE);
    v.push(0xAD);
    v.push(0xBE);
    v.push(0xEF);
    v.push(id);
    v.push(probe_seq);
    assert(v@ =~= probe_magic() + seq![id, probe_seq]);
    push_zeros(&mut v, 10);
    v
}

/// Builds the reply of the slave `responder_id` to a probe for `probed_id`.
pub fn build_probe_reply(probed_id: u8, responder_id: u8, probe_seq: u8) -> (p: Vec<u8>)
    ensures
        p@ == probe_reply_payload(probed_id, responder_id, probe_seq),
{
    let mut v: Vec<u8> = Vec::with_capacity(PROBE_PAYLOAD_LEN);
    v.push(0xCA);
    v.push(0xFE);
    v.push(0xBA);
    v.push(0xBE);
    v.push(probed_id);
    v.push(responder_id);
    v.push(probe_seq);
    assert(v@ =~= probe_reply_magic() + seq![probed_id, responder_id, probe_seq]);
    push_zeros(&mut v, 9);
    v
}

/// Builds the acknowledgement of the payload `seq`, `len` bytes long.
pub fn build_ack_payload(seq: u16, len: usize) -> (p: Vec<u8>)
    requires
        len >= 4,
    ensures
        p@ == ack_payload(seq, len as nat),
{
    let mut v: Vec<u8> = Vec::with_capacity(len);
    v.push(SYNC1);
    v.push(SYNC0);
    v.push((seq % 256) as u8);
    v.push(((seq / 256) % 256) as u8);
    push_zeros(&mut v, len - 4);
    v
}

/// Reads a probe out of bytes received by a slave.
pub fn probe_request(data: &[u8]) -> (r: Option<(u8, u8)>)
    ensures
        r == probe_request_spec(data@),
{
    if data.len() >= 6 && opens_with(data, 0xDE, 0xAD, 0xBE, 0xEF) {
        Some((data[4], data[5]))
    } else {
        None
    }
}

/// Reads the id of the slave that answered out of a reply in the round `probe_seq`.
pub fn probe_responder(payload: &[u8], probe_seq: u8) -> (r: Option<u8>)
    ensures
        r == probe_responder_spec(payload@, probe_seq),
{
    if payload.len() >= 7 && opens_with(payload, 0xCA, 0xFE, 0xBA, 0xBE) && payload[4] == payload[5]
        && payload[6] == probe_seq {
        Some(payload[5])
    } else {
        None
    }
}

/// Whether a payload is a reply to a probe.
pub fn is_probe_reply(payload: &[u8]) -> (b: bool)
    ensures
        b == is_probe_reply_spec(payload@),
{
    opens_with(payload, 0xCA, 0xFE, 0xBA, 0xBE)
}

/// Reads the acknowledged sequence number out of an acknowledgement.
pub fn parse_ack(data: &[u8]) -> (r: Option<u16>)
    ensures
        r == ack_spec(data@),
{
    if data.len() < 4 {
        return None;
    }
    if data[0] != SYNC1 || data[1] != SYNC0 {
        return None;
    }
    let seq: u16 = data[2] as u16 + 256 * (data[3] as u16);
    Some(seq)
}

/// Notes that the slave `id` answered: it is added unless already listed.
pub fn record_online(online: &mut Vec<u8>, id: u8)
    ensures
        final(online)@ == recorded(old(online)@, id),
        final(online)@.take(old(online)@.len() as int) == old(online)@,
        forall|x: u8| #[trigger] final(online)@.contains(x) <==> (old(online)@.contains(x) || x == id),
{
    let mut i: usize = 0;
    while i < online.len()
        invariant
            i <= online@.len(),
            online@ == old(online)@,
            forall|k: int| 0 <= k < i ==> online@[k] != id,
        decreases online@.len() - i,
    {
        if online[i] == id {
            assert(online@.contains(id));
            return;
        }
        i = i + 1;
    }
    online.push(id);
    assert(online@.take(old(online)@.len() as int) =~= old(online)@);
    assert forall|x: u8| #[trigger] online@.contains(x) <==> (old(online)@.contains(x) || x == id) by {
        if old(online)@.contains(x) {
            let k = choose|k: int| 0 <= k < old(online)@.len() && old(online)@[k] == x;
            assert(online@[k] == x);
        }
        if x == id {
            assert(online@[old(online)@.len() as int] == id);
        }
    }
}

/// The list of slaves online after `id` answered, as [`record_online`] makes it.
pub open spec fn recorded(online: Seq<u8>, id: u8) -> Seq<u8> {
    if online.contains(id) {
        online
    } else {
        online.push(id)
    }
}

/// Recording an answer keeps every slave already listed, in its place, lists the
/// slave that answered, and lists no one else; at most one entry is added.
pub proof fn lemma_record_online_keeps(online: Seq<u8>, id: u8)
    ensures
        recorded(online, id).take(online.len() as int) == online,
        recorded(online, id).len() <= online.len() + 1,
        forall|x: u8| #[trigger] recorded(online, id).contains(x) <==> (online.contains(x) || x == id),
{
    let r = recorded(online, id);
    if !online.contains(id) {
        assert(r.take(online.len() as int) =~= online);
        assert forall|x: u8| #[trigger] r.contains(x) <==> (online.contains(x) || x == id) by {
            if online.contains(x) {
                let k = choose|k: int| 0 <= k < online.len() && online[k] == x;
                assert(r[k] == x);
            }
            if x == id {
                assert(r[online.len() as int] == id);
            }
            if r.contains(x) && x != id {
                let k = choose|k: int| 0 <= k < r.len() && r[k] == x;
                assert(online[k] == x);
            }
        }
    } else {
        assert(r.take(online.len() as int) =~= online);
    }
}

/// Recording an answer lists the slave that answered and never lists a slave twice.
pub proof fn lemma_record_online_unique(online: Seq<u8>, id: u8)
    requires
        online.no_duplicates(),
    ensures
        recorded(online, id).no_duplicates(),
        recorded(online, id).contains(id),
{
    if !online.contains(id) {
        let r = online.push(id);
        assert(r[online.len() as int] == id);
        assert forall|i: int, j: int| 0 <= i < r.len() && 0 <= j < r.len() && i != j implies r[i] != r[j] by {
            if i < online.len() && j < online.len() {
                assert(r[i] == online[i] && r[j] == online[j]);
            } else if i < online.len() {
                assert(r[i] == online[i]);
            } else if j < online.len() {
                assert(r[j] == online[j]);
            }
        }
    }
}

/// Whether the ids of `s` increase strictly along it.
pub open spec fn strictly_increasing(s: Seq<u8>) -> bool {
    forall|i: int, j: int| 0 <= i < j < s.len() ==> #[trigger] s[i] < #[trigger] s[j]
}

/// The ids of the slaves found, in increasing order, each once.
pub fn sorted_online(online: &Vec<u8>) -> (ids: Vec<u8>)
    ensures
        strictly_increasing(ids@),
        forall|x: u8| ids@.contains(x) <==> online@.contains(x),
{
    let mut ids: Vec<u8> = Vec::new();
    let mut v: u16 = 0;
    while v < 256
        invariant
            v <= 256,
            strictly_increasing(ids@),
            forall|k: int| 0 <= k < ids@.len() ==> (ids@[k] as int) < v,
            forall|x: u8| ids@.contains(x) <==> (online@.contains(x) && (x as int) < v),
        decreases 256 - v,
    {
        let mut present = false;
        let mut i: usize = 0;
        while i < online.len()
            invariant
                v < 256,
                i <= online@.len(),
                present == (exists|k: int| 0 <= k < i && online@[k] as int == v as int),
            decreases online@.len() - i,
        {
            if online[i] as u16 == v {
                present = true;
            }
            i = i + 1;
        }
        let ghost before = ids@;
        if present {
            ids.push(v as u8);
            assert forall|x: u8| ids@.contains(x) <==> (online@.contains(x) && (x as int) < v + 1) by {
                if ids@.contains(x) && x as int != v as int {
                    let k = choose|k: int| 0 <= k < ids@.len() && ids@[k] == x;
                    assert(before[k] == x);
                }
                if online@.contains(x) && (x as int) < v + 1 && x as int != v as int {
                    assert(before.contains(x));
                    let k = choose|k: int| 0 <= k < before.len() && before[k] == x;
                    assert(ids@[k] == x);
                }
                if x as int == v as int {
                    assert(ids@[before.len() as int] == x);
                }
            }
        } else {
            assert forall|x: u8| ids@.contains(x) <==> (online@.contains(x) && (x as int) < v + 1) by {
                if online@.contains(x) && x as int == v as int {
                    let k = choose|k: int| 0 <= k < online@.len() && online@[k] == x;
                    assert(online@[k] as int == v as int);
                }
            }
        }
        v = v + 1;
    }
    ids
}

/// A probe read back by a slave gives the id and round it was built with.
pub proof fn lemma_probe_request_roundtrip(id: u8, probe_seq: u8)
    ensures
        probe_request_spec(probe_payload(id, probe_seq)) == Some((id, probe_seq)),
{
    assert(probe_payload(id, probe_seq).take(4) =~= probe_magic());
}

/// The master accepts a reply in the round it was sent for exactly when the slave
/// that answered is the one that was probed; it then reads that slave's id.
pub proof fn lemma_probe_reply_roundtrip(probed_id: u8, responder_id: u8, probe_seq: u8, round: u8)
    ensures
        probe_responder_spec(probe_reply_payload(probed_id, responder_id, probe_seq), round) == if
            probed_id == responder_id && probe_seq == round {
            Some(responder_id)
        } else {
            None
        },
        is_probe_reply_spec(probe_reply_payload(probed_id, responder_id, probe_seq)),
{
    assert(probe_reply_payload(probed_id, responder_id, probe_seq).take(4) =~= probe_reply_magic());
}

/// A probe is never taken for a reply, nor a reply for a probe.
pub proof fn lemma_probe_and_reply_differ(id: u8, responder_id: u8, probe_seq: u8)
    ensures
        !is_probe_reply_spec(probe_payload(id, probe_seq)),
        probe_request_spec(probe_reply_payload(id, responder_id, probe_seq)) is None,
{
    assert(probe_payload(id, probe_seq).take(4)[0] == 0xDEu8);
    assert(probe_reply_payload(id, responder_id, probe_seq).take(4)[0] == 0xCAu8);
}

/// An acknowledgement read back gives the sequence number it was built for.
pub proof fn lemma_ack_roundtrip(seq: u16, len: nat)
    requires
        len >= 4,
    ensures
        ack_payload(seq, len).len() == len,
        ack_spec(ack_payload(seq, len)) == Some(seq),
{
    crate::wire::lemma_le16_of_bytes(seq as int);
}

} // verus!
