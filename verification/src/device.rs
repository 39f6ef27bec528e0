//! Device discovery: the system frame that asks a UWB module for its role and
//! id, reading the module's answer, and choosing among the devices found.
use vstd::prelude::*;
use crate::wire::{checksum_spec, checksum_of_range};
use vstd::slice::slice_subrange;
use vstd::multiset::Multiset;

verus! {

pub const ROLE_NODE: u8 = 0x00;
pub const ROLE_ANCHOR: u8 = 0x01;
pub const ROLE_TAG: u8 = 0x02;
pub const ROLE_CONSOLE: u8 = 0x03;
pub const ROLE_MASTER: u8 = 0x04;
pub const ROLE_SLAVE: u8 = 0x05;

/// Length of a system frame.
pub const SYSTEM_FRAME_LEN: usize = 32;
/// First byte of a system frame.
pub const SYSTEM_FRAME_HEADER: u8 = 0x52;

/// The role a module reports for itself.
#[derive(Debug, Clone, Copy, PartialEq, Eq, Structural)]
pub enum Role {
    Node,
    Anchor,
    Tag,
    Console,
    Master,
    Slave,
    Unknown,
}

/// The role that the byte `v` stands for.
pub open spec fn role_of(v: u8) -> Role {
    if v == ROLE_NODE {
        Role::Node
    } else if v == ROLE_ANCHOR {
        Role::Anchor
    } else if v == ROLE_TAG {
        Role::Tag
    } else if v == ROLE_CONSOLE {
        Role::Console
    } else if v == ROLE_MASTER {
        Role::Master
    } else if v == ROLE_SLAVE {
        Role::Slave
    } else {
        Role::Unknown
    }
}

impl From<u8> for Role {
    fn from(v: u8) -> (r: Role) {
        match v {
            0 => Role::Node,
            1 => Role::Anchor,
            2 => Role::Tag,
            3 => Role::Console,
            4 => Role::Master,
            5 => Role::Slave,
            _ => Role::Unknown,
        }
    }
}

impl vstd::std_specs::convert::FromSpecImpl<u8> for Role {
    open spec fn obeys_from_spec() -> bool {
        true
    }

    open spec fn from_spec(v: u8) -> Role {
        role_of(v)
    }
}

/// The name under which a role is shown.
pub open spec fn role_name(r: Role) -> Seq<char> {
    match r {
        Role::Node => "NODE"@,
        Role::Anchor => "ANCHOR"@,
        Role::Tag => "TAG"@,
        Role::Console => "CONSOLE"@,
        Role::Master => "MASTER"@,
        Role::Slave => "SLAVE"@,
        Role::Unknown => "UNKNOWN"@,
    }
}

/// The byte that stands for a role; 255 for an unknown role.
pub open spec fn role_code(r: Role) -> u8 {
    match r {
        Role::Node => ROLE_NODE,
        Role::Anchor => ROLE_ANCHOR,
        Role::Tag => ROLE_TAG,
        Role::Console => ROLE_CONSOLE,
        Role::Master => ROLE_MASTER,
        Role::Slave => ROLE_SLAVE,
        Role::Unknown => 255,
    }
}

impl Role {
    /// The byte that stands for the role; 255 for an unknown role.
    pub fn code(&self) -> (c: u8)
        ensures
            c == role_code(*self),
    {
        match self {
            Role::Node => ROLE_NODE,
            Role::Anchor => ROLE_ANCHOR,
            Role::Tag => ROLE_TAG,
            Role::Console => ROLE_CONSOLE,
            Role::Master => ROLE_MASTER,
            Role::Slave => ROLE_SLAVE,
            Role::Unknown => 255,
        }
    }

    /// The name under which the role is shown.
    pub fn as_str(&self) -> (s: &'static str)
        ensures
            s@ == role_name(*self),
    {
        match self {
            Role::Node => "NODE",
            Role::Anchor => "ANCHOR",
            Role::Tag => "TAG",
            Role::Console => "CONSOLE",
            Role::Master => "MASTER",
            Role::Slave => "SLAVE",
            Role::Unknown => "UNKNOWN",
        }
    }
}

/// A module found on a serial port.
#[derive(Debug)]
pub struct DeviceInfo {
    pub port: String,
    pub role: Role,
    pub id: u8,
}

impl Clone for DeviceInfo {
    fn clone(&self) -> (res: Self)
        ensures
            res == *self,
    {
        DeviceInfo { port: self.port.clone(), role: self.role, id: self.id }
    }
}

/// A known role is read back from its byte.
pub proof fn lemma_role_code_roundtrip(r: Role)
    requires
        r != Role::Unknown,
    ensures
        role_of(role_code(r)) == r,
{
}

/// The first 31 bytes of the frame that asks a module for its system information.
pub open spec fn system_query_body() -> Seq<u8> {
    Seq::new(
        31,
        |i: int|
            if i == 0 {
                SYSTEM_FRAME_HEADER
            } else if i == 1 {
                0u8
            } else if i == 2 {
                1u8
            } else if i < 22 {
                0xFFu8
            } else {
                0u8
            },
    )
}

/// The frame that asks a module for its system information.
pub open spec fn system_query_frame() -> Seq<u8> {
    system_query_body().push(checksum_spec(system_query_body()))
}

/// Builds the frame that asks a module for its system information.
pub fn build_system_query_frame() -> (frame: Vec<u8>)
    ensures
        frame@ == system_query_frame(),
{
    let mut buf: Vec<u8> = Vec::with_capacity(SYSTEM_FRAME_LEN);
    buf.push(SYSTEM_FRAME_HEADER);
    buf.push(0x00);
    buf.push(0x01);
    let mut i: usize = 3;
    while i < 31
        invariant
            3 <= i <= 31,
            buf@.len() == i,
            forall|k: int| 0 <= k < i ==> buf@[k] == system_query_body()[k],
        decreases 31 - i,
    {
        if i < 22 {
            buf.push(0xFF);
        } else {
            buf.push(0x00);
        }
        i = i + 1;
    }
    assert(buf@ =~= system_query_body());
    let cs = checksum_of_range(buf.as_slice(), 0, 31);
    assert(buf@.subrange(0, 31) =~= buf@);
    buf.push(cs);
    buf
}

/// What [`parse_system_frame`] reads out of `data`: nothing unless it holds at
/// least 32 bytes, starts with the system frame header and a zero byte, and byte
/// 31 is the checksum of the 31 before it; else the role in byte 22 and the id in
/// byte 23.
pub open spec fn system_frame_spec(data: Seq<u8>) -> Option<(Role, u8)> {
    if data.len() < SYSTEM_FRAME_LEN || data[0] != SYSTEM_FRAME_HEADER || data[1] != 0 {
        None
    } else if checksum_spec(data.take(31)) != data[31] {
        None
    } else {
        Some((role_of(data[22]), data[23]))
    }
}

/// Changing any one of the first 32 bytes of a good system frame makes it
/// rejected.
pub proof fn lemma_system_frame_corrupted(data: Seq<u8>, k: int, x: u8)
    requires
        system_frame_spec(data) is Some,
        0 <= k < SYSTEM_FRAME_LEN,
        x != data[k],
    ensures
        system_frame_spec(data.update(k, x)) is None,
{
    let e = data.update(k, x);
    if 2 <= k < 31 {
        assert(e.take(31) =~= data.take(31).update(k, x));
        crate::wire::lemma_checksum_update(data.take(31), k, x);
    } else if k == 31 {
        assert(e.take(31) =~= data.take(31));
    }
}

/// Reads the role and the id of a module out of its system frame.
pub fn parse_system_frame(data: &[u8]) -> (r: Option<(Role, u8)>)
    ensures
        r == system_frame_spec(data@),
{
    if data.len() < SYSTEM_FRAME_LEN {
        return None;
    }
    if data[0] != SYSTEM_FRAME_HEADER || data[1] != 0x00 {
        return None;
    }
    let cs = checksum_of_range(data, 0, 31);
    assert(data@.subrange(0, 31) =~= data@.take(31));
    if cs != data[31] {
        return None;
    }
    let role = Role::from(data[22]);
    let id = data[23];
    Some((role, id))
}

/// The first system frame found at any position of the bytes `s`, read as by
/// [`parse_system_frame`].
pub open spec fn first_system_reply(s: Seq<u8>) -> Option<(Role, u8)>
    decreases s.len(),
{
    if s.len() < SYSTEM_FRAME_LEN {
        None
    } else {
        match system_frame_spec(s.take(SYSTEM_FRAME_LEN as int)) {
            Some(found) => Some(found),
            None => first_system_reply(s.skip(1)),
        }
    }
}

/// What a system frame starting at position `i` of `s` reads as.
pub open spec fn system_frame_at(s: Seq<u8>, i: int) -> Option<(Role, u8)> {
    system_frame_spec(s.subrange(i, i + SYSTEM_FRAME_LEN))
}

/// A good system frame is found wherever it stands, as long as no earlier
/// position holds one: after any bytes `junk` in which no good frame starts, a
/// good 32-byte frame `frame` (followed by any bytes `rest`) gives its role and id
/// -- also when it ends the reply.
pub proof fn lemma_reply_found_after_junk(junk: Seq<u8>, frame: Seq<u8>, rest: Seq<u8>)
    requires
        frame.len() == SYSTEM_FRAME_LEN,
        system_frame_spec(frame) is Some,
        forall|i: int| 0 <= i < junk.len() ==> #[trigger] system_frame_at(junk + frame + rest, i) is None,
    ensures
        first_system_reply(junk + frame + rest) == system_frame_spec(frame),
    decreases junk.len(),
{
    let s = junk + frame + rest;
    if junk.len() == 0 {
        assert(s.take(SYSTEM_FRAME_LEN as int) =~= frame);
    } else {
        assert(system_frame_at(s, 0) is None);
        assert(s.take(SYSTEM_FRAME_LEN as int) =~= s.subrange(0, 0 + SYSTEM_FRAME_LEN));
        let j2 = junk.drop_first();
        assert(s.skip(1) =~= j2 + frame + rest);
        assert forall|i: int| 0 <= i < j2.len() implies #[trigger] system_frame_at(j2 + frame + rest, i)
            is None by {
            assert((j2 + frame + rest).subrange(i, i + SYSTEM_FRAME_LEN) =~= s.subrange(
                i + 1,
                i + 1 + SYSTEM_FRAME_LEN,
            ));
            assert(system_frame_at(s, i + 1) is None);
        }
        lemma_reply_found_after_junk(j2, frame, rest);
    }
}

/// The search finds a frame exactly when a good frame starts somewhere in the
/// reply, and what it finds is what a good frame of the reply reads as.
pub proof fn lemma_reply_search(s: Seq<u8>)
    ensures
        first_system_reply(s) is Some <==> exists|i: int|
            0 <= i && i + SYSTEM_FRAME_LEN <= s.len() && #[trigger] system_frame_at(s, i) is Some,
        first_system_reply(s) is Some ==> exists|i: int|
            0 <= i && i + SYSTEM_FRAME_LEN <= s.len() && first_system_reply(s) == #[trigger] system_frame_at(
                s,
                i,
            ),
    decreases s.len(),
{
    if s.len() >= SYSTEM_FRAME_LEN {
        assert(s.take(SYSTEM_FRAME_LEN as int) =~= s.subrange(0, 0 + SYSTEM_FRAME_LEN));
        let t = s.skip(1);
        lemma_reply_search(t);
        assert forall|i: int| 0 <= i && i + SYSTEM_FRAME_LEN <= t.len() implies #[trigger] system_frame_at(t, i)
            == system_frame_at(s, i + 1) by {
            assert(t.subrange(i, i + SYSTEM_FRAME_LEN) =~= s.subrange(i + 1, i + 1 + SYSTEM_FRAME_LEN));
        }
        if system_frame_at(s, 0) is Some {
            assert(first_system_reply(s) == system_frame_at(s, 0));
        } else {
            if exists|i: int| 0 <= i && i + SYSTEM_FRAME_LEN <= s.len() && #[trigger] system_frame_at(s, i) is Some {
                let i = choose|i: int|
                    0 <= i && i + SYSTEM_FRAME_LEN <= s.len() && #[trigger] system_frame_at(s, i) is Some;
                assert(i >= 1);
                assert(system_frame_at(t, i - 1) == system_frame_at(s, i));
            }
            if first_system_reply(t) is Some {
                let i = choose|i: int|
                    0 <= i && i + SYSTEM_FRAME_LEN <= t.len() && first_system_reply(t) == #[trigger] system_frame_at(
                        t,
                        i,
                    );
                assert(system_frame_at(t, i) == system_frame_at(s, i + 1));
            }
        }
    }
}

/// Looks for a system frame at every position of `reply`, first position first.
pub fn find_system_reply(reply: &[u8]) -> (r: Option<(Role, u8)>)
    ensures
        r == first_system_reply(reply@),
{
    let mut i: usize = 0;
    assert(reply@.skip(0) =~= reply@);
    while reply.len() - i >= SYSTEM_FRAME_LEN
        invariant
            i <= reply@.len(),
            first_system_reply(reply@) == first_system_reply(reply@.skip(i as int)),
        decreases reply@.len() - i,
    {
        let ghost s = reply@.skip(i as int);
        let found = parse_system_frame(slice_subrange(reply, i, i + SYSTEM_FRAME_LEN));
        assert(reply@.subrange(i as int, i + SYSTEM_FRAME_LEN) =~= s.take(SYSTEM_FRAME_LEN as int));
        if found.is_some() {
            return found;
        }
        assert(s.skip(1) =~= reply@.skip(i + 1));
        i = i + 1;
    }
    None
}

/// The device on `port` that sent `reply` in answer to the system query, if
/// any system frame can be read out of it.
pub fn device_from_reply(port: &str, reply: &[u8]) -> (d: Option<DeviceInfo>)
    ensures
        match first_system_reply(reply@) {
            Some((role, id)) => d matches Some(info) && info.port@ == port@ && info.role == role
                && info.id == id,
            None => d is None,
        },
{
    match find_system_reply(reply) {
        Some((role, id)) => Some(DeviceInfo { port: port.to_owned(), role, id }),
        None => None,
    }
}

/// The test that keeps the devices of role `r` with id `k`.
pub open spec fn has_role_and_id(r: Role, k: int) -> spec_fn(DeviceInfo) -> bool {
    |d: DeviceInfo| d.role == r && d.id as int == k
}

/// The devices of `found` with role `target` and an id below `k`, ordered by id;
/// devices with the same id keep the order they have in `found`.
pub open spec fn select_spec(found: Seq<DeviceInfo>, target: Role, k: nat) -> Seq<DeviceInfo>
    decreases k,
{
    if k == 0 {
        seq![]
    } else {
        select_spec(found, target, (k - 1) as nat) + found.filter(has_role_and_id(target, k - 1))
    }
}

/// The devices of `found` that have the role `target`, ordered by id (a stable
/// order: devices with the same id keep the order they were found in).
pub fn select_devices(found: &Vec<DeviceInfo>, target: Role) -> (selected: Vec<DeviceInfo>)
    ensures
        selected@ == select_spec(found@, target, 256),
{
    let mut out: Vec<DeviceInfo> = Vec::new();
    let mut k: u16 = 0;
    while k < 256
        invariant
            k <= 256,
            out@ == select_spec(found@, target, k as nat),
        decreases 256 - k,
    {
        let ghost base = out@;
        let ghost pred = has_role_and_id(target, k as int);
        let mut i: usize = 0;
        assert(found@.take(0) =~= Seq::<DeviceInfo>::empty());
        assert(base + Seq::<DeviceInfo>::empty().filter(pred) =~= base) by {
            reveal(Seq::filter);
        }
        while i < found.len()
            invariant
                k < 256,
                i <= found@.len(),
                pred == has_role_and_id(target, k as int),
                out@ == base + found@.take(i as int).filter(pred),
            decreases found@.len() - i,
        {
            assert(found@.take(i + 1) =~= found@.take(i as int).push(found@[i as int]));
            proof {
                found@.take(i as int).lemma_filter_push(found@[i as int], pred);
            }
            if found[i].role == target && found[i].id as u16 == k {
                let d = found[i].clone();
                out.push(d);
            }
            i = i + 1;
        }
        assert(found@.take(found@.len() as int) =~= found@);
        k = k + 1;
    }
    out
}

/// The test that keeps the devices of role `r`.
pub open spec fn has_role(r: Role) -> spec_fn(DeviceInfo) -> bool {
    |d: DeviceInfo| d.role == r
}

/// The test that keeps the devices of role `r` with an id below `k`.
pub open spec fn has_role_id_below(r: Role, k: int) -> spec_fn(DeviceInfo) -> bool {
    |d: DeviceInfo| d.role == r && (d.id as int) < k
}

proof fn lemma_multiset_concat<A>(a: Seq<A>, b: Seq<A>)
    ensures
        (a + b).to_multiset() =~= a.to_multiset().add(b.to_multiset()),
    decreases b.len(),
{
    if b.len() == 0 {
        assert(a + b =~= a);
        assert(b.to_multiset() =~= Multiset::<A>::empty()) by {
            b.to_multiset_ensures();
        }
    } else {
        let init = b.drop_last();
        let x = b.last();
        lemma_multiset_concat(a, init);
        assert(a + b =~= (a + init).push(x));
        assert(b =~= init.push(x));
        (a + init).to_multiset_ensures();
        init.to_multiset_ensures();
    }
}

proof fn lemma_filter_split_multiset<A>(
    s: Seq<A>,
    p: spec_fn(A) -> bool,
    q: spec_fn(A) -> bool,
    r: spec_fn(A) -> bool,
)
    requires
        forall|x: A| #[trigger] r(x) == (p(x) || q(x)),
        forall|x: A| !(#[trigger] p(x) && q(x)),
    ensures
        s.filter(r).to_multiset() =~= s.filter(p).to_multiset().add(s.filter(q).to_multiset()),
    decreases s.len(),
{
    reveal(Seq::filter);
    if s.len() == 0 {
        s.filter(r).to_multiset_ensures();
        s.filter(p).to_multiset_ensures();
        s.filter(q).to_multiset_ensures();
    } else {
        let init = s.drop_last();
        let x = s.last();
        lemma_filter_split_multiset(init, p, q, r);
        init.filter(r).to_multiset_ensures();
        init.filter(p).to_multiset_ensures();
        init.filter(q).to_multiset_ensures();
    }
}

#[verifier::spinoff_prover]
proof fn lemma_select_prefix(found: Seq<DeviceInfo>, target: Role, k: nat)
    requires
        k <= 256,
    ensures
        ({
            let sel = select_spec(found, target, k);
            &&& forall|i: int| 0 <= i < sel.len() ==> #[trigger] sel[i].role == target && (sel[i].id as int) < k
            &&& forall|i: int, j: int| 0 <= i <= j < sel.len() ==> #[trigger] sel[i].id <= #[trigger] sel[j].id
            &&& sel.to_multiset() =~= found.filter(has_role_id_below(target, k as int)).to_multiset()
        }),
    decreases k,
{
    let sel = select_spec(found, target, k);
    if k == 0 {
        reveal(Seq::filter);
        assert(found.filter(has_role_id_below(target, 0)) =~= Seq::<DeviceInfo>::empty()) by {
            if found.filter(has_role_id_below(target, 0)).len() > 0 {
                found.lemma_filter_pred(has_role_id_below(target, 0), 0);
            }
        }
        sel.to_multiset_ensures();
        found.filter(has_role_id_below(target, 0)).to_multiset_ensures();
    } else {
        let prev = select_spec(found, target, (k - 1) as nat);
        let part = found.filter(has_role_and_id(target, k - 1));
        lemma_select_prefix(found, target, (k - 1) as nat);
        assert(sel == prev + part);
        assert forall|i: int| 0 <= i < part.len() implies #[trigger] part[i].role == target && part[i].id
            == k - 1 by {
            found.lemma_filter_pred(has_role_and_id(target, k - 1), i);
        }
        assert forall|i: int| 0 <= i < sel.len() implies #[trigger] sel[i].role == target && (
        sel[i].id as int) < k by {
            if i >= prev.len() {
                assert(sel[i] == part[i - prev.len()]);
            }
        }
        assert forall|i: int, j: int| 0 <= i <= j < sel.len() implies #[trigger] sel[i].id
            <= #[trigger] sel[j].id by {
            if j < prev.len() {
                assert(sel[i] == prev[i] && sel[j] == prev[j]);
                assert(prev[i].id <= prev[j].id);
            } else if i < prev.len() {
                assert(sel[i] == prev[i]);
                assert(prev[i].role == target && (prev[i].id as int) < k - 1);
                assert(sel[j] == part[j - prev.len()]);
                assert(part[j - prev.len()].role == target && part[j - prev.len()].id == k - 1);
            } else {
                assert(sel[i] == part[i - prev.len()] && sel[j] == part[j - prev.len()]);
                assert(part[i - prev.len()].role == target && part[i - prev.len()].id == k - 1);
                assert(part[j - prev.len()].role == target && part[j - prev.len()].id == k - 1);
            }
        }
        lemma_multiset_concat(prev, part);
        lemma_filter_split_multiset(
            found,
            has_role_id_below(target, k - 1),
            has_role_and_id(target, k - 1),
            has_role_id_below(target, k as int),
        );
    }
}

/// What the selection of devices is: each selected device has the role asked
/// for, the ids never decrease along the selection, and the selection holds the
/// devices found with that role, each as many times as it was found.
pub proof fn lemma_select_devices(found: Seq<DeviceInfo>, target: Role)
    ensures
        ({
            let sel = select_spec(found, target, 256);
            &&& forall|i: int| 0 <= i < sel.len() ==> #[trigger] sel[i].role == target
            &&& forall|i: int, j: int| 0 <= i <= j < sel.len() ==> #[trigger] sel[i].id <= #[trigger] sel[j].id
            &&& sel.to_multiset() == found.filter(has_role(target)).to_multiset()
        }),
{
    lemma_select_prefix(found, target, 256);
    assert(has_role_id_below(target, 256) =~= has_role(target));
}

/// The part of a port name that marks a call-out device.
pub open spec fn callout_marker() -> Seq<char> {
    seq!['/', 'd', 'e', 'v', '/', 'c', 'u', '.']
}

/// Whether `name` holds `part` somewhere.
pub open spec fn contains_text(name: Seq<char>, part: Seq<char>) -> bool {
    exists|i: int| 0 <= i && i + part.len() <= name.len() && #[trigger] name.subrange(i, i + part.len()) == part
}

/// Whether a port is probed during a scan: a USB port whose name holds `/dev/cu.`.
pub fn is_scan_candidate(is_usb: bool, port_name: &str) -> (b: bool)
    ensures
        b == (is_usb && contains_text(port_name@, callout_marker())),
{
    if !is_usb {
        return false;
    }
    let marker: [char; 8] = ['/', 'd', 'e', 'v', '/', 'c', 'u', '.'];
    assert(marker@ =~= callout_marker());
    let n = port_name.unicode_len();
    if n < 8 {
        assert(!contains_text(port_name@, callout_marker()));
        return false;
    }
    let mut i: usize = 0;
    while n - i >= 8
        invariant
            is_usb,
            n == port_name@.len(),
            n >= 8,
            i <= n,
            marker@ == callout_marker(),
            forall|j: int| 0 <= j < i ==> #[trigger] port_name@.subrange(j, j + 8) != callout_marker(),
        decreases n - i,
    {
        let mut k: usize = 0;
        let mut same = true;
        while k < 8
            invariant
                0 <= k <= 8,
                i + 8 <= n,
                n == port_name@.len(),
                marker@ == callout_marker(),
                same == (forall|m: int| 0 <= m < k ==> port_name@[i + m] == marker@[m]),
            decreases 8 - k,
        {
            if port_name.get_char(i + k) != marker[k] {
                same = false;
            }
            k = k + 1;
        }
        if same {
            assert(port_name@.subrange(i as int, i + callout_marker().len()) =~= callout_marker());
            assert(contains_text(port_name@, callout_marker()));
            return true;
        }
        assert(port_name@.subrange(i as int, i + 8) != callout_marker()) by {
            let m = choose|m: int| 0 <= m < 8 && port_name@[i + m] != marker@[m];
            assert(port_name@.subrange(i as int, i + 8)[m] != callout_marker()[m]);
        }
        i = i + 1;
    }
    assert(!contains_text(port_name@, callout_marker())) by {
        if contains_text(port_name@, callout_marker()) {
            let j = choose|j: int| 0 <= j && j + callout_marker().len() <= port_name@.len()
                && #[trigger] port_name@.subrange(j, j + callout_marker().len()) == callout_marker();
            assert(port_name@.subrange(j, j + 8) != callout_marker());
        }
    }
    false
}

} // verus!
