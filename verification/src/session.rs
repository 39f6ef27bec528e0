//! The decisions of the master and slave programs: choosing the slave to test
//! and how many round trips to make, the master's send/acknowledge cycle, and
//! the slave's answer to what it receives.
use vstd::prelude::*;
use crate::interactive::{trim_spec, trim_text};
use crate::nlink::{Role, user_frame1, build_user_frame1};
use crate::payload::{unpack_spec, unpack_payload, payload_image, pack_payload};
use crate::protocol::{probe_request_spec, probe_reply_payload, ack_payload, probe_request,
    build_probe_reply, build_ack_payload, ACK_PAYLOAD_LEN, is_probe_reply_spec, ack_spec,
    is_probe_reply, parse_ack};

verus! {

/// How many round trips a test makes when the number typed cannot be read.
pub const DEFAULT_TEST_LIMIT: u64 = 500;
/// Length of the payload of the master's round-trip test.
pub const TEST_PAYLOAD_LEN: usize = 16;

/// Whether `c` is an ASCII decimal digit.
pub open spec fn is_digit(c: char) -> bool {
    '0' <= c && c <= '9'
}

/// The value of the decimal digits `s`.
pub open spec fn digits_value(s: Seq<char>) -> int
    decreases s.len(),
{
    if s.len() == 0 {
        0
    } else {
        digits_value(s.drop_last()) * 10 + (s.last() as int - '0' as int)
    }
}

/// The digits of an unsigned number written as `t`: without a leading `+`.
pub open spec fn unsigned_digits(t: Seq<char>) -> Seq<char> {
    if t.len() > 0 && t[0] == '+' {
        t.drop_first()
    } else {
        t
    }
}

/// The unsigned number written as `t`, as Rust's `str::parse` reads it for an
/// unsigned type whose largest value is `max`: an optional `+`, then one or more
/// ASCII digits, of value at most `max`; anything else is no number.
pub open spec fn parse_unsigned_spec(t: Seq<char>, max: int) -> Option<int> {
    let d = unsigned_digits(t);
    if d.len() > 0 && (forall|i: int| 0 <= i < d.len() ==> is_digit(#[trigger] d[i])) && digits_value(d)
        <= max {
        Some(digits_value(d))
    } else {
        None
    }
}

/// Reads the unsigned number written as `t`, of value at most `max`.
pub fn parse_unsigned(t: &str, max: u64) -> (r: Option<u64>)
    ensures
        r is Some <==> parse_unsigned_spec(t@, max as int) is Some,
        r matches Some(x) ==> parse_unsigned_spec(t@, max as int) == Some(x as int),
{
    let n = t.unicode_len();
    let mut start: usize = 0;
    if n > 0 && t.get_char(0) == '+' {
        start = 1;
    }
    let ghost d = unsigned_digits(t@);
    assert(d =~= t@.skip(start as int));
    if start >= n {
        return None;
    }
    let mut v: u64 = 0;
    let mut i: usize = start;
    while i < n
        invariant
            start <= i <= n,
            n == t@.len(),
            start < n,
            d == t@.skip(start as int),
            d == unsigned_digits(t@),
            v <= max,
            v == digits_value(d.take(i - start)),
            forall|k: int| 0 <= k < i - start ==> is_digit(#[trigger] d[k]),
        decreases n - i,
    {
        let c = t.get_char(i);
        assert(d.take(i - start + 1).drop_last() =~= d.take(i - start));
        assert(c == d[i - start]);
        if c < '0' || c > '9' {
            assert(!is_digit(d[i - start]));
            assert(!(forall|k: int| 0 <= k < d.len() ==> is_digit(#[trigger] d[k])));
            return None;
        }
        let digit: u64 = (c as u32 - '0' as u32) as u64;
        assert(d.take(i - start + 1).last() == c);
        if digit > max || v > (max - digit) / 10 {
            proof {
                let prefix_value = digits_value(d.take(i - start + 1));
                assert(prefix_value == v * 10 + digit);
                assert(v * 10 + digit > max) by (nonlinear_arith)
                    requires
                        digit > max || v > (max - digit) / 10,
                        digit <= 9,
                ;
                if forall|k: int| 0 <= k < d.len() ==> is_digit(#[trigger] d[k]) {
                    lemma_digits_value_grows(d, i - start + 1);
                }
            }
            return None;
        }
        v = v * 10 + digit;
        i = i + 1;
    }
    assert(d.take(n - start) =~= d);
    Some(v)
}

/// Along an all-digit text, the value of a prefix never exceeds that of the whole.
proof fn lemma_digits_value_grows(d: Seq<char>, k: int)
    requires
        0 <= k <= d.len(),
        forall|i: int| 0 <= i < d.len() ==> is_digit(#[trigger] d[i]),
    ensures
        digits_value(d.take(k)) <= digits_value(d),
    decreases d.len() - k,
{
    if k < d.len() {
        lemma_digits_value_grows(d, k + 1);
        assert(d.take(k + 1).drop_last() =~= d.take(k));
        assert(is_digit(d[k]));
        lemma_digits_value_nonneg(d.take(k));
    } else {
        assert(d.take(k) =~= d);
    }
}

proof fn lemma_digits_value_nonneg(d: Seq<char>)
    requires
        forall|i: int| 0 <= i < d.len() ==> is_digit(#[trigger] d[i]),
    ensures
        digits_value(d) >= 0,
    decreases d.len(),
{
    if d.len() > 0 {
        assert(is_digit(d[d.len() - 1]));
        lemma_digits_value_nonneg(d.drop_last());
    }
}

fn contains_id(ids: &[u8], x: u8) -> (b: bool)
    ensures
        b == ids@.contains(x),
{
    let mut i: usize = 0;
    while i < ids.len()
        invariant
            i <= ids@.len(),
            forall|k: int| 0 <= k < i ==> ids@[k] != x,
        decreases ids@.len() - i,
    {
        if ids[i] == x {
            assert(ids@.contains(x));
            return true;
        }
        i = i + 1;
    }
    false
}

/// The slave chosen is always one of the slaves online; an answer made of
/// decimal digits whose value is an index into the list picks the slave at that
/// index, whatever ids are online; an empty answer picks the first slave.
pub proof fn lemma_choose_slave(online: Seq<u8>, t: Seq<char>)
    requires
        online.len() > 0,
        online.len() <= usize::MAX,
    ensures
        online.contains(choose_slave_spec(online, t)),
        t.len() == 0 ==> choose_slave_spec(online, t) == online[0],
        (t.len() > 0 && (forall|i: int| 0 <= i < t.len() ==> is_digit(#[trigger] t[i])) && digits_value(t)
            < online.len()) ==> choose_slave_spec(online, t) == online[digits_value(t)],
{
    if t.len() > 0 && (forall|i: int| 0 <= i < t.len() ==> is_digit(#[trigger] t[i])) {
        assert(is_digit(t[0]));
        assert(unsigned_digits(t) == t);
        lemma_digits_value_nonneg(t);
    }
    let c = choose_slave_spec(online, t);
    if t.len() == 0 {
        assert(online[0] == c);
    } else if parse_unsigned_spec(t, usize::MAX as int) is Some {
        let idx = parse_unsigned_spec(t, usize::MAX as int).unwrap();
        lemma_digits_value_nonneg_parsed(t, usize::MAX as int);
        if idx < online.len() {
            assert(online[idx] == c);
        } else {
            assert(online[0] == c);
        }
    } else if parse_unsigned_spec(t, 255) is Some {
        let id = parse_unsigned_spec(t, 255).unwrap();
        if !online.contains(id as u8) {
            assert(online[0] == c);
        }
    } else {
        assert(online[0] == c);
    }
}

/// A number read is never negative.
proof fn lemma_digits_value_nonneg_parsed(t: Seq<char>, max: int)
    requires
        parse_unsigned_spec(t, max) is Some,
    ensures
        parse_unsigned_spec(t, max).unwrap() >= 0,
{
    lemma_digits_value_nonneg(unsigned_digits(t));
}

/// The slave chosen out of the slaves online for the (trimmed) text `t`: the
/// first one for an empty text; for a number, the slave at that index if there
/// is one; failing that, for a number that names an online slave, that slave;
/// the first one otherwise.
pub open spec fn choose_slave_spec(online: Seq<u8>, t: Seq<char>) -> u8 {
    if t.len() == 0 {
        online[0]
    } else if parse_unsigned_spec(t, usize::MAX as int) is Some {
        let idx = parse_unsigned_spec(t, usize::MAX as int).unwrap();
        if idx < online.len() {
            online[idx]
        } else {
            online[0]
        }
    } else if parse_unsigned_spec(t, 255) is Some {
        let id = parse_unsigned_spec(t, 255).unwrap();
        if online.contains(id as u8) {
            id as u8
        } else {
            online[0]
        }
    } else {
        online[0]
    }
}

/// Chooses the slave to test out of `online` for the trimmed answer `t`.
pub fn choose_slave_for_text(online: &[u8], t: &str) -> (id: u8)
    requires
        online@.len() > 0,
    ensures
        id == choose_slave_spec(online@, t@),
{
    if t.unicode_len() == 0 {
        return online[0];
    }
    match parse_unsigned(t, usize::MAX as u64) {
        Some(idx) => {
            if idx < online.len() as u64 {
                online[idx as usize]
            } else {
                online[0]
            }
        },
        None => {
            assert(parse_unsigned_spec(t@, 255) is None);
            match parse_unsigned(t, 255) {
                Some(id) => {
                    let id8 = id as u8;
                    if contains_id(online, id8) {
                        id8
                    } else {
                        online[0]
                    }
                },
                None => online[0],
            }
        },
    }
}

/// Chooses the slave to test out of `online` for the line `input` typed.
pub fn choose_slave(online: &[u8], input: &str) -> (id: u8)
    requires
        online@.len() > 0,
    ensures
        id == choose_slave_spec(online@, trim_spec(input@)),
{
    choose_slave_for_text(online, trim_text(input))
}

/// The number of round trips asked for by the (trimmed) text `t`.
pub open spec fn test_limit_spec(t: Seq<char>) -> u64 {
    match parse_unsigned_spec(t, u64::MAX as int) {
        Some(v) => v as u64,
        None => DEFAULT_TEST_LIMIT,
    }
}

/// The number of round trips asked for by the trimmed answer `t`.
pub fn test_limit_for_text(t: &str) -> (limit: u64)
    ensures
        limit == test_limit_spec(t@),
{
    match parse_unsigned(t, u64::MAX) {
        Some(v) => v,
        None => DEFAULT_TEST_LIMIT,
    }
}

/// The number of round trips asked for by the line `input` typed.
pub fn test_limit_from(input: &str) -> (limit: u64)
    ensures
        limit == test_limit_spec(trim_spec(input@)),
{
    test_limit_for_text(trim_text(input))
}

/// The larger of `limit` and one: a test always sends its first payload.
pub open spec fn send_budget(limit: u64) -> int {
    if limit >= 1 {
        limit as int
    } else {
        1
    }
}

/// The next sequence number after `seq`, wrapping from 65535 to 0.
pub open spec fn next_seq(seq: u16) -> u16 {
    if seq == u16::MAX {
        0
    } else {
        (seq + 1) as u16
    }
}

/// The sequence number after `seq` is one more, modulo 65536: only 65535 wraps,
/// to 0.
pub proof fn lemma_next_seq(seq: u16)
    ensures
        next_seq(seq) as int == (seq as int + 1) % 65536,
        seq < u16::MAX ==> next_seq(seq) as int == seq + 1,
        seq == u16::MAX ==> next_seq(seq) == 0,
{
}

/// What became of the test on an acknowledgement.
#[derive(Debug, Clone, Copy, PartialEq, Eq, Structural)]
pub enum AckOutcome {
    /// The next payload is due.
    NextRound,
    /// Every payload was sent and acknowledged: the test is over.
    Finished,
    /// Every payload was sent; acknowledgements are still awaited.
    Waiting,
}

/// The state of the master's round-trip test: one payload at a time is sent
/// to the slave, and the next is sent once an acknowledgement comes back.
#[derive(Debug, Clone, Copy)]
pub struct MasterTest {
    pub slave_id: Option<u8>,
    pub test_limit: u64,
    pub in_test: bool,
    pub test_complete: bool,
    pub pending_send: bool,
    pub seq: u16,
    pub sent_count: u64,
    pub recv_count: u64,
}

impl MasterTest {
    /// Well-formedness: no more payloads are sent than the test asks for (at least
    /// one), and a payload is only due while that number is not reached.
    pub open spec fn wf(&self) -> bool {
        &&& self.sent_count <= send_budget(self.test_limit)
        &&& (self.in_test && self.pending_send && !self.test_complete) ==> self.sent_count < send_budget(
            self.test_limit,
        )
    }

    /// The state before any test.
    pub fn new() -> (t: MasterTest)
        ensures
            t.wf(),
            t.slave_id is None,
            t.test_limit == DEFAULT_TEST_LIMIT,
            !t.in_test,
            !t.test_complete,
            t.pending_send,
            t.seq == 0,
            t.sent_count == 0,
            t.recv_count == 0,
    {
        MasterTest {
            slave_id: None,
            test_limit: DEFAULT_TEST_LIMIT,
            in_test: false,
            test_complete: false,
            pending_send: true,
            seq: 0,
            sent_count: 0,
            recv_count: 0,
        }
    }

    /// Starts a test of `limit` round trips with the slave `slave_id`.
    pub fn start(&mut self, slave_id: u8, limit: u64)
        ensures
            final(self).wf(),
            final(self).slave_id == Some(slave_id),
            final(self).test_limit == limit,
            final(self).in_test,
            !final(self).test_complete,
            final(self).pending_send,
            final(self).seq == 0,
            final(self).sent_count == 0,
            final(self).recv_count == 0,
    {
        self.slave_id = Some(slave_id);
        self.test_limit = limit;
        self.in_test = true;
        self.test_complete = false;
        self.pending_send = true;
        self.seq = 0;
        self.sent_count = 0;
        self.recv_count = 0;
    }

    /// When a payload is due, marks it sent and returns the slave it goes to
    /// (0 when none was chosen) and its sequence number.
    pub fn next_send(&mut self) -> (due: Option<(u8, u16)>)
        requires
            old(self).wf(),
        ensures
            final(self).wf(),
            if old(self).in_test && old(self).pending_send && !old(self).test_complete {
                &&& due == Some(
                    (
                        match old(self).slave_id {
                            Some(id) => id,
                            None => 0u8,
                        },
                        old(self).seq,
                    ),
                )
                &&& *final(self) == (MasterTest {
                    sent_count: (old(self).sent_count + 1) as u64,
                    pending_send: false,
                    ..*old(self)
                })
            } else {
                &&& due is None
                &&& *final(self) == *old(self)
            },
    {
        if self.in_test && self.pending_send && !self.test_complete {
            let sid = match self.slave_id {
                Some(id) => id,
                None => 0,
            };
            self.sent_count = self.sent_count + 1;
            self.pending_send = false;
            Some((sid, self.seq))
        } else {
            None
        }
    }

    /// Counts an acknowledgement received during the test and decides what comes
    /// next: another payload while fewer than `test_limit` were sent, else the end
    /// of the test once `test_limit` acknowledgements have arrived.
    pub fn on_ack(&mut self) -> (outcome: AckOutcome)
        requires
            old(self).wf(),
            old(self).recv_count < u64::MAX,
        ensures
            final(self).wf(),
            final(self).recv_count == old(self).recv_count + 1,
            final(self).sent_count == old(self).sent_count,
            final(self).slave_id == old(self).slave_id,
            final(self).test_limit == old(self).test_limit,
            old(self).sent_count < old(self).test_limit ==> {
                &&& outcome == AckOutcome::NextRound
                &&& final(self).seq == next_seq(old(self).seq)
                &&& final(self).seq as int == (old(self).seq as int + 1) % 65536
                &&& final(self).pending_send
                &&& final(self).in_test == old(self).in_test
                &&& final(self).test_complete == old(self).test_complete
            },
            old(self).sent_count >= old(self).test_limit && final(self).recv_count >= old(
                self,
            ).test_limit ==> {
                &&& outcome == AckOutcome::Finished
                &&& final(self).test_complete
                &&& !final(self).in_test
                &&& final(self).seq == old(self).seq
                &&& final(self).pending_send == old(self).pending_send
            },
            old(self).sent_count >= old(self).test_limit && final(self).recv_count < old(
                self,
            ).test_limit ==> {
                &&& outcome == AckOutcome::Waiting
                &&& final(self).seq == old(self).seq
                &&& final(self).pending_send == old(self).pending_send
                &&& final(self).in_test == old(self).in_test
                &&& final(self).test_complete == old(self).test_complete
            },
    {
        self.recv_count = self.recv_count + 1;
        if self.sent_count < self.test_limit {
            self.seq = if self.seq == u16::MAX {
                0
            } else {
                self.seq + 1
            };
            self.pending_send = true;
            AckOutcome::NextRound
        } else if self.recv_count >= self.test_limit {
            self.test_complete = true;
            self.in_test = false;
            AckOutcome::Finished
        } else {
            AckOutcome::Waiting
        }
    }
}

/// The payload of a round-trip test: `seq` and the send time `timestamp_us`.
pub fn build_test_payload(seq: u16, timestamp_us: u64) -> (p: Vec<u8>)
    ensures
        p@ == payload_image(seq, timestamp_us, TEST_PAYLOAD_LEN as nat),
{
    let mut p: Vec<u8> = vec![0u8; TEST_PAYLOAD_LEN];
    pack_payload(p.as_mut_slice(), seq, timestamp_us);
    p
}

/// The acknowledged sequence number carried by a payload received by the master,
/// if it is an acknowledgement (replies to probes are passed over).
pub fn ack_in_payload(payload: &[u8]) -> (r: Option<u16>)
    ensures
        r == if is_probe_reply_spec(payload@) {
            None
        } else {
            ack_spec(payload@)
        },
{
    if is_probe_reply(payload) {
        None
    } else {
        parse_ack(payload)
    }
}

/// How a slave answers the bytes it received.
#[derive(Debug)]
pub enum SlaveAnswer {
    /// A probe for `probed_id` came: `frame` carries the reply to the master.
    ProbeReply { probed_id: u8, frame: Vec<u8> },
    /// The test payload `seq` came: `frame` carries its acknowledgement.
    Ack { seq: u16, frame: Vec<u8> },
    /// Nothing to answer.
    Ignored,
}

/// The answer of the slave `self_id` to the bytes `data`: a probe is answered
/// with a reply addressed to the master; a test payload with an acknowledgement
/// of its sequence number; anything else is ignored.
pub fn slave_answer(self_id: u8, data: &[u8]) -> (a: SlaveAnswer)
    ensures
        match probe_request_spec(data@) {
            Some((probed, probe_seq)) => a matches SlaveAnswer::ProbeReply { probed_id, frame } && probed_id
                == probed && frame@ == user_frame1(
                Role::Master.spec_code(),
                0,
                probe_reply_payload(probed, self_id, probe_seq),
            ),
            None => match unpack_spec(data@) {
                Some((seq, _)) => a matches SlaveAnswer::Ack { seq: acked, frame } && acked == seq
                    && frame@ == user_frame1(
                    Role::Slave.spec_code(),
                    self_id,
                    ack_payload(seq, ACK_PAYLOAD_LEN as nat),
                ),
                None => a is Ignored,
            },
        },
{
    match probe_request(data) {
        Some((probed, probe_seq)) => {
            let reply = build_probe_reply(probed, self_id, probe_seq);
            let frame = build_user_frame1(Role::Master.code(), 0, reply.as_slice());
            SlaveAnswer::ProbeReply { probed_id: probed, frame }
        },
        None => match unpack_payload(data) {
            Some((seq, _ts)) => {
                let ack = build_ack_payload(seq, ACK_PAYLOAD_LEN);
                let frame = build_user_frame1(Role::Slave.code(), self_id, ack.as_slice());
                SlaveAnswer::Ack { seq, frame }
            },
            None => SlaveAnswer::Ignored,
        },
    }
}

} // verus!
