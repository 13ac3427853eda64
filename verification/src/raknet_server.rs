//! The RakNet server's decisions: the offline handshake, ACK/NACK
//! handling, inbound frame sets, outbound datagram building, resends and
//! timeouts. The socket, the clock and the task plumbing stay with the
//! caller, which hands each datagram and the current time in and sends what
//! comes out.

use vstd::prelude::*;
use crate::raknet_packet::{
    NetAddress, OfflinePacket, MAX_MTU, SequenceRange, Ack, Nack, Frame, FrameView, FrameSetEntry, Reliability,
    encode_ack, ack_encoding, encode_frame, encode_datagram, frame_encoding, datagram_encoding, frame_views,
    split_payload, split_frames_spec, RaknetPacket, encode_offline, offline_encoding, concat_bodies,
    split_chunk_size,
};
use crate::raknet_conn::{
    Connection, ConnectionState, PendingFrame, conn_wf, fresh_conn, in_ranges, ranges_wf, covers_with, splits_view,
    feed_split_spec, expire_view, lemma_expire_view, expire_spec,
};
use crate::text::{decimal, push_str, push_decimal};
use crate::bytes::read_le;

verus! {

/// RakNet protocol version used by Bedrock.
pub const RAKNET_PROTOCOL_VERSION: u8 = 11;

/// Maximum players per server instance.
pub const MAX_CONNECTIONS: usize = 256;

/// Connection inactivity timeout, in milliseconds.
pub const CONNECTION_TIMEOUT_MS: u64 = 20000;

/// How often unacknowledged reliable frames are resent, in milliseconds.
pub const RESEND_INTERVAL_MS: u64 = 800;

/// Resends of a reliable frame before it is given up.
pub const MAX_RETRIES: u32 = 10;

/// The smallest MTU outbound datagrams are cut for.
pub const MIN_OUTBOUND_MTU: u16 = 576;

/// Bytes a datagram header and an unsplit reliable-ordered frame header
/// take: 4 + 1 + 2 + 3 + 4.
pub const SINGLE_FRAME_OVERHEAD: u16 = 14;

/// The Bedrock protocol version that pongs advertise.
fn protocol_version() -> (r: u32)
    ensures
        r == 1001,
{
    1001
}

/// The game version that pongs advertise.
fn game_version() -> (r: &'static str)
    ensures
        r@ == "1.26.30"@,
{
    "1.26.30"
}

/// `try_fill_bytes` of rand's `OsRng` (rand_core's, which calls
/// `getrandom`): eight bytes from the operating system's random source,
/// or `None` where that source reports an error. It returns the error
/// rather than panicking. Nothing is claimed of the bytes.
#[verifier::external_body]
fn os_random_bytes() -> Option<[u8; 8]> {
    let mut bytes = [0u8; 8];
    match rand::RngCore::try_fill_bytes(&mut rand::rngs::OsRng, &mut bytes) {
        Ok(()) => Some(bytes),
        Err(_) => None,
    }
}

/// Messages produced by the RakNet layer for the rest of the server.
#[derive(Debug)]
pub enum ServerEvent {
    /// A client just completed the RakNet handshake.
    Connected(NetAddress),
    /// A client timed out or otherwise disconnected.
    Disconnected(NetAddress),
    /// A fully reassembled Bedrock batch payload received from a client.
    GamePacket(NetAddress, Vec<u8>),
}

/// The server state: its GUID and MOTD, whether it runs in online mode,
/// and the connections, one per client address.
#[derive(Debug)]
pub struct RaknetServer {
    pub guid: i64,
    pub motd: String,
    pub connections: Vec<Connection>,
    pub online_mode: bool,
    pub next_split_id: u16,
}

/// No two connections share an address.
pub open spec fn addrs_unique(cs: Seq<Connection>) -> bool {
    forall|i: int, j: int| 0 <= i < j < cs.len() ==> (#[trigger] cs[i]).addr != (#[trigger] cs[j]).addr
}

/// The server's invariant: one connection per address, each well formed.
pub open spec fn server_wf(s: RaknetServer) -> bool {
    &&& addrs_unique(s.connections@)
    &&& forall|i: int| 0 <= i < s.connections@.len() ==> conn_wf(#[trigger] s.connections@[i])
}

/// Some connection has address `a`.
pub open spec fn has_conn(cs: Seq<Connection>, a: NetAddress) -> bool {
    exists|i: int| 0 <= i < cs.len() && (#[trigger] cs[i]).addr == a
}

/// The position of the connection with address `a`.
pub open spec fn conn_index(cs: Seq<Connection>, a: NetAddress) -> int {
    choose|i: int| 0 <= i < cs.len() && (#[trigger] cs[i]).addr == a
}

/// The MOTD string an unconnected pong carries.
pub open spec fn motd_text(motd: Seq<char>, guid: i64, online: bool) -> Seq<char> {
    "MCPE;"@ + motd + ";"@ + decimal(1001) + ";"@ + "1.26.30"@ + ";RustMine;0;20;"@
        + decimal(guid as int) + ";RustMine;Survival;"@ + (if online { "1"@ } else { "0"@ }) + ";"@
}

/// The smaller of `mtu` and the largest MTU accepted.
pub open spec fn clamp_mtu(mtu: u16) -> u16 {
    if mtu < MAX_MTU { mtu } else { MAX_MTU }
}

/// What answering an offline packet gives.
#[derive(Debug)]
pub struct OfflineOutcome {
    /// The reply to send to the client, if any.
    pub reply: Option<OfflinePacket>,
    /// The client has just completed the handshake.
    pub connected: bool,
    /// The reply answers Open Connection Request 1 with this requested
    /// MTU: once it has been sent, `begin_handshake` records it.
    pub handshake_mtu: Option<u16>,
}

/// The fields other than the connections are those of `old`.
pub open spec fn same_settings(old: RaknetServer, new: RaknetServer) -> bool {
    &&& new.guid == old.guid
    &&& new.motd == old.motd
    &&& new.online_mode == old.online_mode
    &&& new.next_split_id == old.next_split_id
}

/// The connections of `new` are those of `old` and, after them, one fresh
/// connection for `addr` in `state`.
pub open spec fn added_conn(
    old: Seq<Connection>,
    new: Seq<Connection>,
    addr: NetAddress,
    guid: i64,
    mtu: u16,
    now: u64,
    state: ConnectionState,
) -> bool {
    &&& new.len() == old.len() + 1
    &&& new.drop_last() == old
    &&& fresh_conn(new.last(), addr, guid, mtu, now)
    &&& new.last().state == state
}

/// `out` and `new` are what answering the offline packet `p` from `src`
/// at `now` gives on `old`.
pub open spec fn offline_handled(
    old: RaknetServer,
    new: RaknetServer,
    src: NetAddress,
    p: OfflinePacket,
    now: u64,
    out: OfflineOutcome,
) -> bool {
    let cs = old.connections@;
    &&& same_settings(old, new)
    &&& match p {
        OfflinePacket::UnconnectedPing { time, client_guid } => {
            &&& out.reply matches Some(OfflinePacket::UnconnectedPong { time: t, server_guid: g, motd: m })
                && t == time && g == old.guid && m@ == motd_text(old.motd@, old.guid, old.online_mode)
            &&& !out.connected
            &&& out.handshake_mtu is None
            &&& if has_conn(cs, src) {
                new.connections@ == cs
            } else {
                added_conn(cs, new.connections@, src, client_guid, MAX_MTU, now, ConnectionState::Unconnected)
            }
        },
        OfflinePacket::OpenConnectionRequest1 { protocol_version, mtu } => {
            &&& new.connections@ == cs
            &&& !out.connected
            &&& if cs.len() >= MAX_CONNECTIONS {
                out.reply is None && out.handshake_mtu is None
            } else if protocol_version != RAKNET_PROTOCOL_VERSION {
                &&& out.reply == Some(OfflinePacket::IncompatibleProtocol {
                    server_protocol: RAKNET_PROTOCOL_VERSION,
                    server_guid: old.guid,
                })
                &&& out.handshake_mtu is None
            } else {
                &&& out.reply == Some(OfflinePacket::OpenConnectionReply1 {
                    server_guid: old.guid,
                    use_encryption: old.online_mode,
                    mtu: clamp_mtu(mtu),
                })
                &&& out.handshake_mtu == Some(mtu)
            }
        },
        OfflinePacket::OpenConnectionRequest2 { server_address: _, mtu, client_guid } => {
            let m = clamp_mtu(mtu);
            &&& out.reply == Some(OfflinePacket::OpenConnectionReply2 {
                server_guid: old.guid,
                client_address: src,
                mtu: m,
                encryption_enabled: old.online_mode,
            })
            &&& out.handshake_mtu is None
            &&& out.connected == !(has_conn(cs, src) && cs[conn_index(cs, src)].state == ConnectionState::Connected)
            &&& if has_conn(cs, src) {
                let i = conn_index(cs, src);
                new.connections@ == cs.update(i, Connection {
                    mtu: m,
                    mtu_size: m,
                    client_guid,
                    state: ConnectionState::Connected,
                    last_recv_ms: now,
                    ..cs[i]
                })
            } else {
                added_conn(cs, new.connections@, src, client_guid, m, now, ConnectionState::Connected)
            }
        },
        _ => {
            &&& new.connections@ == cs
            &&& out.reply is None
            &&& !out.connected
            &&& out.handshake_mtu is None
        },
    }
}

impl RaknetServer {
    /// A server with the given GUID, MOTD and mode, and no connections.
    pub fn with_guid(motd: String, online_mode: bool, guid: i64) -> (r: Self)
        ensures
            server_wf(r),
            r.guid == guid,
            r.motd == motd,
            r.online_mode == online_mode,
            r.connections@.len() == 0,
            r.next_split_id == 0,
    {
        RaknetServer { guid, motd, connections: Vec::new(), online_mode, next_split_id: 0 }
    }

    /// A server with a random GUID, the given MOTD and mode, and no
    /// connections; `None` when the operating system gives no random bytes
    /// for the GUID.
    pub fn new(motd: String, online_mode: bool) -> (r: Option<Self>)
        ensures
            r matches Some(s) ==> {
                &&& server_wf(s)
                &&& s.motd == motd
                &&& s.online_mode == online_mode
                &&& s.connections@.len() == 0
                &&& s.next_split_id == 0
            },
    {
        match os_random_bytes() {
            Some(bytes) => {
                let guid = read_le(bytes.as_slice(), 0, 8) as i64;
                Some(RaknetServer::with_guid(motd, online_mode, guid))
            },
            None => None,
        }
    }

    /// The position of the connection with address `addr`.
    pub fn find_conn(&self, addr: NetAddress) -> (r: Option<usize>)
        requires
            server_wf(*self),
        ensures
            match r {
                Some(i) => has_conn(self.connections@, addr) && i as int == conn_index(self.connections@, addr)
                    && i < self.connections@.len(),
                None => !has_conn(self.connections@, addr),
            },
    {
        let mut i: usize = 0;
        while i < self.connections.len()
            invariant
                i <= self.connections@.len(),
                addrs_unique(self.connections@),
                forall|j: int| 0 <= j < i ==> (#[trigger] self.connections@[j]).addr != addr,
            decreases self.connections@.len() - i,
        {
            if self.connections[i].addr == addr {
                proof {
                    let cs = self.connections@;
                    assert(cs[i as int].addr == addr);
                    let k = conn_index(cs, addr);
                    if k < i {
                        assert(cs[k].addr != cs[i as int].addr);
                    } else if k > i {
                        assert(cs[i as int].addr != cs[k].addr);
                    }
                }
                return Some(i);
            }
            i = i + 1;
        }
        None
    }

    /// The MOTD string for unconnected pongs.
    fn pong_motd(&self) -> (r: String)
        ensures
            r@ == motd_text(self.motd@, self.guid, self.online_mode),
    {
        let mut s = String::new();
        push_str(&mut s, "MCPE;");
        push_str(&mut s, self.motd.as_str());
        push_str(&mut s, ";");
        push_decimal(&mut s, protocol_version() as i64);
        push_str(&mut s, ";");
        push_str(&mut s, game_version());
        push_str(&mut s, ";RustMine;0;20;");
        push_decimal(&mut s, self.guid);
        push_str(&mut s, ";RustMine;Survival;");
        push_str(&mut s, if self.online_mode { "1" } else { "0" });
        push_str(&mut s, ";");
        assert(s@ =~= motd_text(self.motd@, self.guid, self.online_mode));
        s
    }

    /// Answer an offline packet from `src` at `now_ms`: a ping gets a pong
    /// and registers the client; Open Connection Request 1 gets a reply
    /// (or an incompatible-protocol notice, or nothing when the server is
    /// full); Open Connection Request 2 completes the handshake.
    pub fn handle_offline(&mut self, src: NetAddress, packet: OfflinePacket, now_ms: u64) -> (r: OfflineOutcome)
        requires
            server_wf(*old(self)),
        ensures
            server_wf(*final(self)),
            offline_handled(*old(self), *final(self), src, packet, now_ms, r),
    {
        let ghost cs = self.connections@;
        match packet {
            OfflinePacket::UnconnectedPing { time, client_guid } => {
                let motd = self.pong_motd();
                let reply = OfflinePacket::UnconnectedPong { time, server_guid: self.guid, motd };
                if self.find_conn(src).is_none() {
                    let c = Connection::new(src, client_guid, MAX_MTU, now_ms);
                    self.connections.push(c);
                    proof {
                        assert(self.connections@.drop_last() == cs);
                        assert forall|i: int, j: int| 0 <= i < j < self.connections@.len() implies
                            (#[trigger] self.connections@[i]).addr != (#[trigger] self.connections@[j]).addr by {
                            if j == cs.len() {
                                assert(self.connections@[i] == cs[i]);
                            } else {
                                assert(self.connections@[i] == cs[i]);
                                assert(self.connections@[j] == cs[j]);
                            }
                        }
                        assert forall|i: int| 0 <= i < self.connections@.len() implies conn_wf(#[trigger] self.connections@[i]) by {
                            if i < cs.len() {
                                assert(self.connections@[i] == cs[i]);
                            }
                        }
                    }
                }
                OfflineOutcome { reply: Some(reply), connected: false, handshake_mtu: None }
            },
            OfflinePacket::OpenConnectionRequest1 { protocol_version, mtu } => {
                if self.connections.len() >= MAX_CONNECTIONS {
                    return OfflineOutcome { reply: None, connected: false, handshake_mtu: None };
                }
                if protocol_version != RAKNET_PROTOCOL_VERSION {
                    let reply = OfflinePacket::IncompatibleProtocol {
                        server_protocol: RAKNET_PROTOCOL_VERSION,
                        server_guid: self.guid,
                    };
                    return OfflineOutcome { reply: Some(reply), connected: false, handshake_mtu: None };
                }
                let m = if mtu < MAX_MTU { mtu } else { MAX_MTU };
                let reply = OfflinePacket::OpenConnectionReply1 {
                    server_guid: self.guid,
                    use_encryption: self.online_mode,
                    mtu: m,
                };
                OfflineOutcome { reply: Some(reply), connected: false, handshake_mtu: Some(mtu) }
            },
            OfflinePacket::OpenConnectionRequest2 { server_address: _, mtu, client_guid } => {
                let m = if mtu < MAX_MTU { mtu } else { MAX_MTU };
                let found = self.find_conn(src);
                let was_connected = match found {
                    Some(i) => self.connections[i].state == ConnectionState::Connected,
                    None => false,
                };
                match found {
                    Some(i) => {
                        let mut c = self.connections.remove(i);
                        c.mtu = m;
                        c.mtu_size = m;
                        c.client_guid = client_guid;
                        c.state = ConnectionState::Connected;
                        c.last_recv_ms = now_ms;
                        self.connections.insert(i, c);
                        proof {
                            assert(self.connections@ =~= cs.update(i as int, c));
                            assert forall|a: int, b: int| 0 <= a < b < self.connections@.len() implies
                                (#[trigger] self.connections@[a]).addr != (#[trigger] self.connections@[b]).addr by {
                                assert(cs[a].addr != cs[b].addr);
                            }
                            assert forall|a: int| 0 <= a < self.connections@.len() implies conn_wf(#[trigger] self.connections@[a]) by {
                                assert(conn_wf(cs[a]));
                            }
                        }
                    },
                    None => {
                        let mut c = Connection::new(src, client_guid, m, now_ms);
                        c.state = ConnectionState::Connected;
                        self.connections.push(c);
                        proof {
                            assert(self.connections@.drop_last() == cs);
                            assert forall|a: int, b: int| 0 <= a < b < self.connections@.len() implies
                                (#[trigger] self.connections@[a]).addr != (#[trigger] self.connections@[b]).addr by {
                                if b == cs.len() {
                                    assert(self.connections@[a] == cs[a]);
                                } else {
                                    assert(self.connections@[a] == cs[a]);
                                    assert(self.connections@[b] == cs[b]);
                                }
                            }
                            assert forall|a: int| 0 <= a < self.connections@.len() implies conn_wf(#[trigger] self.connections@[a]) by {
                                if a < cs.len() {
                                    assert(self.connections@[a] == cs[a]);
                                }
                            }
                        }
                    },
                }
                let reply = OfflinePacket::OpenConnectionReply2 {
                    server_guid: self.guid,
                    client_address: src,
                    mtu: m,
                    encryption_enabled: self.online_mode,
                };
                OfflineOutcome { reply: Some(reply), connected: !was_connected, handshake_mtu: None }
            },
            _ => OfflineOutcome { reply: None, connected: false, handshake_mtu: None },
        }
    }

    /// After the reply to Open Connection Request 1 has been sent: record
    /// the clamped MTU on the client's connection, mark it handshaking and
    /// note the time. Nothing changes for an unknown client.
    pub fn begin_handshake(&mut self, src: NetAddress, mtu: u16, now_ms: u64)
        requires
            server_wf(*old(self)),
        ensures
            server_wf(*final(self)),
            same_settings(*old(self), *final(self)),
            ({
                let cs = old(self).connections@;
                if has_conn(cs, src) {
                    let i = conn_index(cs, src);
                    final(self).connections@ == cs.update(i, Connection {
                        mtu: clamp_mtu(mtu),
                        mtu_size: clamp_mtu(mtu),
                        state: ConnectionState::Handshaking,
                        last_recv_ms: now_ms,
                        ..cs[i]
                    })
                } else {
                    final(self).connections@ == cs
                }
            }),
    {
        let ghost cs = self.connections@;
        if let Some(i) = self.find_conn(src) {
            let m = if mtu < MAX_MTU { mtu } else { MAX_MTU };
            let mut c = self.connections.remove(i);
            c.mtu = m;
            c.mtu_size = m;
            c.state = ConnectionState::Handshaking;
            c.last_recv_ms = now_ms;
            self.connections.insert(i, c);
            proof {
                assert(self.connections@ =~= cs.update(i as int, c));
                assert forall|a: int, b: int| 0 <= a < b < self.connections@.len() implies
                    (#[trigger] self.connections@[a]).addr != (#[trigger] self.connections@[b]).addr by {
                    assert(cs[a].addr != cs[b].addr);
                }
                assert forall|a: int| 0 <= a < self.connections@.len() implies conn_wf(#[trigger] self.connections@[a]) by {
                    assert(conn_wf(cs[a]));
                }
            }
        }
    }
}

/// Replacing one connection by a well-formed one with the same address
/// keeps the server's invariant.
proof fn lemma_update_wf(cs: Seq<Connection>, i: int, c: Connection)
    requires
        0 <= i < cs.len(),
        addrs_unique(cs),
        forall|j: int| 0 <= j < cs.len() ==> conn_wf(#[trigger] cs[j]),
        c.addr == cs[i].addr,
        conn_wf(c),
    ensures
        addrs_unique(cs.update(i, c)),
        forall|j: int| 0 <= j < cs.len() ==> conn_wf(#[trigger] cs.update(i, c)[j]),
{
    let u = cs.update(i, c);
    assert forall|a: int, b: int| 0 <= a < b < u.len() implies (#[trigger] u[a]).addr != (#[trigger] u[b]).addr by {
        assert(cs[a].addr != cs[b].addr);
    }
    assert forall|a: int| 0 <= a < u.len() implies conn_wf(#[trigger] u[a]) by {
        assert(conn_wf(cs[a]));
    }
}

/// `new` is `old` with only the connection at `i` replaced.
pub open spec fn only_changed(old: Seq<Connection>, new: Seq<Connection>, i: int) -> bool {
    &&& new.len() == old.len()
    &&& forall|j: int| 0 <= j < old.len() && j != i ==> new[j] == old[j]
}

/// Some range of `rs` covers `s`.
pub open spec fn seq_in(rs: Seq<SequenceRange>, s: u32) -> bool {
    exists|k: int| 0 <= k < rs.len() && (#[trigger] rs[k]).start <= s <= rs[k].end
}

/// The pending frames whose sequence number no range of `rs` covers, in
/// their order.
pub open spec fn unacked(fs: Seq<PendingFrame>, rs: Seq<SequenceRange>) -> Seq<PendingFrame>
    decreases fs.len(),
{
    if fs.len() == 0 {
        Seq::empty()
    } else {
        let p = unacked(fs.drop_last(), rs);
        if seq_in(rs, fs.last().sequence_number) {
            p
        } else {
            p.push(fs.last())
        }
    }
}

/// Whether some range of `rs` covers `s`.
fn covers(rs: &Vec<SequenceRange>, s: u32) -> (r: bool)
    ensures
        r == seq_in(rs@, s),
{
    let mut k: usize = 0;
    while k < rs.len()
        invariant
            k <= rs@.len(),
            forall|j: int| 0 <= j < k ==> !((#[trigger] rs@[j]).start <= s <= rs@[j].end),
        decreases rs@.len() - k,
    {
        if rs[k].start <= s && s <= rs[k].end {
            assert(rs@[k as int].start <= s <= rs@[k as int].end);
            return true;
        }
        k = k + 1;
    }
    false
}

/// The sequence numbers from `r.start` to `r.end`, both included.
pub open spec fn range_seq(r: SequenceRange) -> Seq<u32> {
    Seq::new(
        if r.end >= r.start { (r.end - r.start + 1) as nat } else { 0nat },
        |i: int| (r.start + i) as u32,
    )
}

/// The sequence numbers the ranges name, range after range.
pub open spec fn nack_seqs(rs: Seq<SequenceRange>) -> Seq<u32>
    decreases rs.len(),
{
    if rs.len() == 0 {
        Seq::empty()
    } else {
        nack_seqs(rs.drop_last()) + range_seq(rs.last())
    }
}

/// The position of the first pending frame with sequence number `s`.
pub open spec fn first_with(ps: Seq<PendingFrame>, s: u32) -> Option<int>
    decreases ps.len(),
{
    if ps.len() == 0 {
        None
    } else {
        match first_with(ps.drop_last(), s) {
            Some(i) => Some(i),
            None => if ps.last().sequence_number == s { Some(ps.len() - 1) } else { None },
        }
    }
}

/// Answering the NACKed sequence numbers `seqs` in turn at `now`: for each,
/// the first pending frame with that number, unless it has used up its
/// retries, counts one more retry, is stamped with `now` and its bytes are
/// sent again.
pub open spec fn nack_spec(ps: Seq<PendingFrame>, seqs: Seq<u32>, now: u64) -> (Seq<PendingFrame>, Seq<Seq<u8>>)
    decreases seqs.len(),
{
    if seqs.len() == 0 {
        (ps, Seq::empty())
    } else {
        let (p1, o1) = nack_spec(ps, seqs.drop_last(), now);
        match first_with(p1, seqs.last()) {
            Some(i) => if p1[i].retries < MAX_RETRIES {
                (
                    p1.update(i, PendingFrame { retries: (p1[i].retries + 1) as u32, send_time_ms: now, ..p1[i] }),
                    o1.push(p1[i].raw_data@),
                )
            } else {
                (p1, o1)
            },
            None => (p1, o1),
        }
    }
}

/// The byte sequences of a list of buffers.
pub open spec fn bufs_view(v: Seq<Vec<u8>>) -> Seq<Seq<u8>> {
    v.map_values(|b: Vec<u8>| b@)
}

impl RaknetServer {
    /// An ACK from `src`: every pending frame whose sequence number one of
    /// the ranges covers is dropped.
    pub fn handle_ack(&mut self, src: NetAddress, ack: &Ack)
        requires
            server_wf(*old(self)),
        ensures
            server_wf(*final(self)),
            ack_handled(*old(self), *final(self), src, ack.sequences@),
    {
        let ghost cs = self.connections@;
        let i = match self.find_conn(src) {
            Some(i) => i,
            None => return,
        };
        let mut c = self.connections.remove(i);
        let mut rest: Vec<PendingFrame> = Vec::new();
        std::mem::swap(&mut rest, &mut c.pending_frames);
        let ghost orig = rest@;
        let total = rest.len();
        let mut kept: Vec<PendingFrame> = Vec::new();
        let mut k: usize = 0;
        while rest.len() > 0
            invariant
                k <= orig.len(),
                orig.len() == total,
                rest@.len() + k == orig.len(),
                rest@ == orig.skip(k as int),
                kept@ == unacked(orig.take(k as int), ack.sequences@),
            decreases rest@.len(),
        {
            let f = rest.remove(0);
            proof {
                assert(orig.take(k + 1).drop_last() == orig.take(k as int));
                assert(orig.take(k + 1).last() == f);
            }
            if !covers(&ack.sequences, f.sequence_number) {
                kept.push(f);
            }
            k = k + 1;
        }
        proof {
            assert(orig.take(k as int) == orig);
        }
        c.pending_frames = kept;
        proof {
            lemma_update_wf(cs, i as int, c);
        }
        self.connections.insert(i, c);
        assert(self.connections@ =~= cs.update(i as int, c));
    }

    /// A NACK from `src` at `now_ms`: each sequence number the ranges name
    /// is answered in turn as `nack_spec` says; the bytes to send again come
    /// out in that order.
    pub fn handle_nack(&mut self, src: NetAddress, nack: &Nack, now_ms: u64) -> (r: Vec<Vec<u8>>)
        requires
            server_wf(*old(self)),
        ensures
            server_wf(*final(self)),
            nack_handled(*old(self), *final(self), src, nack.sequences@, now_ms, bufs_view(r@)),
    {
        let ghost cs = self.connections@;
        let mut out: Vec<Vec<u8>> = Vec::new();
        let i = match self.find_conn(src) {
            Some(i) => i,
            None => return out,
        };
        let mut c = self.connections.remove(i);
        let ghost c0 = c;
        let ghost orig = c.pending_frames@;
        let rs = &nack.sequences;
        let mut k: usize = 0;
        while k < rs.len()
            invariant
                k <= rs@.len(),
                c == (Connection { pending_frames: c.pending_frames, ..c0 }),
                (c.pending_frames@, bufs_view(out@)) == nack_spec(orig, nack_seqs(rs@.take(k as int)), now_ms),
            decreases rs@.len() - k,
        {
            let r = rs[k];
            proof {
                assert(rs@.take(k + 1).drop_last() == rs@.take(k as int));
            }
            if r.start <= r.end {
                let mut s: u64 = r.start as u64;
                while s <= r.end as u64
                    invariant
                        r.start <= s <= r.end as u64 + 1,
                        c == (Connection { pending_frames: c.pending_frames, ..c0 }),
                        (c.pending_frames@, bufs_view(out@)) == nack_spec(
                            orig,
                            nack_seqs(rs@.take(k as int)) + range_seq(r).take(s - r.start),
                            now_ms,
                        ),
                    decreases r.end as u64 + 1 - s,
                {
                    let sq = s as u32;
                    let ghost before = (c.pending_frames@, bufs_view(out@));
                    let ghost seqs = nack_seqs(rs@.take(k as int)) + range_seq(r).take(s - r.start);
                    proof {
                        assert((seqs.push(sq)).drop_last() == seqs);
                        assert(nack_seqs(rs@.take(k as int)) + range_seq(r).take(s + 1 - r.start) == seqs.push(sq));
                    }
                    let mut j: usize = 0;
                    let mut hit = false;
                    while j < c.pending_frames.len() && !hit
                        invariant
                            j <= c.pending_frames@.len(),
                            first_with(c.pending_frames@.take(j as int), sq) is None,
                            hit ==> j < c.pending_frames@.len() && c.pending_frames@[j as int].sequence_number == sq,
                        decreases c.pending_frames@.len() - j, (if hit { 0int } else { 1int }),
                    {
                        if c.pending_frames[j].sequence_number == sq {
                            hit = true;
                        } else {
                            proof {
                                assert(c.pending_frames@.take(j + 1).drop_last() == c.pending_frames@.take(j as int));
                            }
                            j = j + 1;
                        }
                    }
                    proof {
                        lemma_first_with_prefix(c.pending_frames@, sq, j as int);
                    }
                    if hit {
                        if c.pending_frames[j].retries < MAX_RETRIES {
                            let ghost pf = c.pending_frames@[j as int];
                            let mut f = c.pending_frames.remove(j);
                            f.retries = f.retries + 1;
                            f.send_time_ms = now_ms;
                            let raw = vstd::slice::slice_to_vec(f.raw_data.as_slice());
                            c.pending_frames.insert(j, f);
                            out.push(raw);
                            proof {
                                assert(f == (PendingFrame { retries: (pf.retries + 1) as u32, send_time_ms: now_ms, ..pf }));
                                assert(c.pending_frames@ =~= before.0.update(j as int, f));
                                assert(bufs_view(out@) =~= before.1.push(raw@));
                            }
                        }
                    }
                    s = s + 1;
                }
                proof {
                    assert(range_seq(r).take(s - r.start) == range_seq(r));
                }
            } else {
                proof {
                    assert(range_seq(r) =~= Seq::<u32>::empty());
                }
            }
            proof {
                assert(nack_seqs(rs@.take(k + 1)) == nack_seqs(rs@.take(k as int)) + range_seq(r));
            }
            k = k + 1;
        }
        proof {
            assert(rs@.take(k as int) == rs@);
            lemma_update_wf(cs, i as int, c);
        }
        self.connections.insert(i, c);
        assert(self.connections@ =~= cs.update(i as int, c));
        out
    }
}

/// Taking the frames of a frame set in turn: a whole frame's body is
/// complete at once; a split piece with its id, index and count goes into
/// reassembly and may complete a body; a split piece missing one of them is
/// skipped. Gives the split states after and the completed bodies in order.
pub open spec fn frames_fold(
    sp: Map<u16, (u32, Map<u32, Vec<u8>>, u64)>,
    fs: Seq<Frame>,
    now: u64,
) -> (Map<u16, (u32, Map<u32, Vec<u8>>, u64)>, Seq<Seq<u8>>)
    decreases fs.len(),
{
    if fs.len() == 0 {
        (sp, Seq::empty())
    } else {
        let (sp1, o1) = frames_fold(sp, fs.drop_last(), now);
        let f = fs.last();
        if f.is_split {
            match (f.split_id, f.split_index, f.split_count) {
                (Some(id), Some(idx), Some(cnt)) => {
                    let (sp2, done) = feed_split_spec(sp1, id, idx, cnt, f.body, now);
                    (sp2, match done { Some(b) => o1.push(b), None => o1 })
                },
                _ => (sp1, o1),
            }
        } else {
            (sp1, o1.push(f.body@))
        }
    }
}

/// The received ranges as ACK records.
pub open spec fn ack_ranges(rs: Seq<(u32, u32)>) -> Seq<SequenceRange> {
    Seq::new(rs.len(), |i: int| SequenceRange { start: rs[i].0, end: rs[i].1 })
}

impl RaknetServer {
    /// A frame set from `src` with sequence number `seq` at `now_ms`. From
    /// a connected client it refreshes the last-heard time; a sequence
    /// number seen before gives nothing more. A new one is recorded, and
    /// the ACK of every range received so far comes out with the bodies the
    /// frames complete; split packets past the timeout are then dropped.
    pub fn handle_frames(&mut self, src: NetAddress, seq: u32, frames: Vec<Frame>, now_ms: u64) -> (r: Option<(Vec<u8>, Vec<Vec<u8>>)>)
        requires
            server_wf(*old(self)),
        ensures
            server_wf(*final(self)),
            frames_handled(*old(self), *final(self), src, seq, frames@, now_ms, frames_result_view(r)),
    {
        let ghost cs = self.connections@;
        let i = match self.find_conn(src) {
            Some(i) => i,
            None => return None,
        };
        if self.connections[i].state != ConnectionState::Connected {
            return None;
        }
        let mut c = self.connections.remove(i);
        proof {
            assert(c == cs[i as int]);
            assert(conn_wf(c));
        }
        c.last_recv_ms = now_ms;
        if c.recv_queue.contains(seq) {
            proof {
                lemma_update_wf(cs, i as int, c);
            }
            self.connections.insert(i, c);
            assert(self.connections@ =~= cs.update(i as int, c));
            return None;
        }
        c.recv_queue.push(seq);
        let ranges = c.recv_queue.ranges();
        let mut seqs: Vec<SequenceRange> = Vec::new();
        let mut k: usize = 0;
        while k < ranges.len()
            invariant
                k <= ranges@.len(),
                seqs@ == ack_ranges(ranges@).take(k as int),
            decreases ranges@.len() - k,
        {
            let (a, b) = ranges[k];
            seqs.push(SequenceRange { start: a, end: b });
            assert(ack_ranges(ranges@).take(k + 1) =~= ack_ranges(ranges@).take(k as int).push(SequenceRange { start: a, end: b }));
            k = k + 1;
        }
        assert(ack_ranges(ranges@).take(k as int) =~= ack_ranges(ranges@));
        let ack_raw = encode_ack(&Ack { sequences: seqs }, false);
        let ghost c1 = c;
        let ghost fs = frames@;
        let mut rest = frames;
        let mut completed: Vec<Vec<u8>> = Vec::new();
        let mut n: usize = 0;
        let total = rest.len();
        while rest.len() > 0
            invariant
                n <= fs.len(),
                fs.len() == total,
                rest@.len() + n == fs.len(),
                rest@ == fs.skip(n as int),
                conn_wf(c),
                c == (Connection { split_packets: c.split_packets, ..c1 }),
                (splits_view(c.split_packets@), bufs_view(completed@)) == frames_fold(
                    splits_view(c1.split_packets@),
                    fs.take(n as int),
                    now_ms,
                ),
            decreases rest@.len(),
        {
            let f = rest.remove(0);
            let ghost before = bufs_view(completed@);
            proof {
                assert(fs.take(n + 1).drop_last() == fs.take(n as int));
                assert(fs.take(n + 1).last() == f);
            }
            if f.is_split {
                match (f.split_id, f.split_index, f.split_count) {
                    (Some(id), Some(idx), Some(cnt)) => {
                        let got = c.feed_split(id, idx, cnt, f.body, now_ms);
                        match got {
                            Some(body) => {
                                completed.push(body);
                                assert(bufs_view(completed@) =~= before.push(body@));
                            },
                            None => {},
                        }
                    },
                    _ => {},
                }
            } else {
                let body = f.body;
                completed.push(body);
                assert(bufs_view(completed@) =~= before.push(body@));
            }
            n = n + 1;
        }
        proof {
            assert(fs.take(n as int) == fs);
        }
        let ghost before_expire = c.split_packets@;
        c.expire_split_packets(now_ms);
        proof {
            lemma_expire_view(before_expire, now_ms);
            lemma_update_wf(cs, i as int, c);
        }
        self.connections.insert(i, c);
        assert(self.connections@ =~= cs.update(i as int, c));
        Some((ack_raw, completed))
    }
}

/// `x` wrapped to 32 bits.
pub open spec fn wrap32(x: int) -> u32 {
    (x % 0x1_0000_0000) as u32
}

/// `x` wrapped to 16 bits.
pub open spec fn wrap16(x: int) -> u16 {
    (x % 0x1_0000) as u16
}

/// The MTU outbound datagrams are cut for: the connection's, but at least
/// `MIN_OUTBOUND_MTU`.
pub open spec fn outbound_mtu(mtu_size: u16) -> u16 {
    if mtu_size > MIN_OUTBOUND_MTU { mtu_size } else { MIN_OUTBOUND_MTU }
}

/// The frames an outbound payload travels in: one reliable-ordered frame
/// on channel 0 when it fits the MTU less the single-frame overhead, else
/// its split frames.
pub open spec fn out_frames(payload: Seq<u8>, mtu: u16, split_id: u16, rel: u32, ord: u32) -> Seq<FrameView> {
    if payload.len() <= mtu - SINGLE_FRAME_OVERHEAD {
        seq![FrameView {
            reliability: Reliability::ReliableOrdered,
            is_split: false,
            reliable_index: Some(rel),
            sequence_index: None,
            order_index: Some(ord),
            order_channel: 0,
            split_count: None,
            split_id: None,
            split_index: None,
            body: payload,
        }]
    } else {
        split_frames_spec(payload, mtu, split_id, Reliability::ReliableOrdered, 0, rel, ord)
    }
}

/// How many frames from the front go into a datagram that already holds
/// `size` bytes: the first always, then each next one while the datagram
/// stays within `mtu`.
pub open spec fn take_count(fs: Seq<FrameView>, size: nat, mtu: nat, first: bool) -> nat
    decreases fs.len(),
{
    if fs.len() == 0 {
        0
    } else {
        let l = frame_encoding(fs[0]).len();
        if !first && size + l > mtu {
            0
        } else {
            1 + take_count(fs.drop_first(), size + l, mtu, false)
        }
    }
}

/// The frames grouped into datagrams, front to back: each datagram starts
/// with its 4 header bytes and takes frames as `take_count` says.
pub open spec fn pack(fs: Seq<FrameView>, mtu: nat) -> Seq<Seq<FrameView>>
    decreases fs.len(),
{
    if fs.len() == 0 {
        Seq::empty()
    } else {
        let k = take_count(fs, 4, mtu, true);
        let k1 = if k < 1 { 1 } else if k > fs.len() { fs.len() } else { k };
        seq![fs.take(k1 as int)] + pack(fs.skip(k1 as int), mtu)
    }
}

/// The bytes of the `j`-th datagram built from `groups`, numbered from `seq0`.
pub open spec fn datagrams_spec(groups: Seq<Seq<FrameView>>, seq0: u32) -> Seq<Seq<u8>> {
    Seq::new(groups.len(), |j: int| datagram_encoding(wrap32(seq0 + j), groups[j]))
}

/// The pending frames after sending the datagrams `ds`, numbered from
/// `seq0`, all carrying reliable index `rel` and stamped `now`.
pub open spec fn pending_after(old: Seq<PendingFrame>, new: Seq<PendingFrame>, ds: Seq<Seq<u8>>, seq0: u32, rel: u32, now: u64) -> bool {
    &&& new.len() == old.len() + ds.len()
    &&& new.take(old.len() as int) == old
    &&& forall|j: int| 0 <= j < ds.len() ==> {
        let p = #[trigger] new[old.len() + j];
        &&& p.sequence_number == wrap32(seq0 + j)
        &&& p.reliable_index == rel
        &&& p.raw_data@ == ds[j]
        &&& p.send_time_ms == now
        &&& p.retries == 0
    }
}

/// `take_count` from position `t` on, one frame further.
proof fn lemma_take_step(fs: Seq<FrameView>, t: int, size: nat, mtu: nat, first: bool)
    requires
        0 <= t < fs.len(),
    ensures
        take_count(fs.skip(t), size, mtu, first) == {
            let l = frame_encoding(fs[t]).len();
            if !first && size + l > mtu {
                0
            } else {
                1 + take_count(fs.skip(t + 1), size + l, mtu, false)
            }
        },
{
    assert(fs.skip(t).drop_first() == fs.skip(t + 1));
    assert(fs.skip(t)[0] == fs[t]);
}

/// `take_count` never exceeds the frames there are.
proof fn lemma_take_count_le(fs: Seq<FrameView>, size: nat, mtu: nat, first: bool)
    ensures
        take_count(fs, size, mtu, first) <= fs.len(),
        first && fs.len() > 0 ==> take_count(fs, size, mtu, first) >= 1,
    decreases fs.len(),
{
    if fs.len() > 0 {
        lemma_take_count_le(fs.drop_first(), size + frame_encoding(fs[0]).len(), mtu, false);
    }
}

impl RaknetServer {
    /// Build the datagrams that carry `payload` to `dest` at `now_ms`, as
    /// one reliable-ordered message on channel 0: the message takes the
    /// connection's next reliable and order indices, travels in one frame
    /// or in split frames (taking the next split id), and the frames are
    /// packed into datagrams that each take the next sequence number and
    /// are kept as pending until acknowledged. Nothing is built for an
    /// unknown or unconnected client.
    #[verifier::rlimit(60)]
    pub fn build_datagrams(&mut self, dest: NetAddress, payload: Vec<u8>, now_ms: u64) -> (r: Vec<Vec<u8>>)
        requires
            server_wf(*old(self)),
        ensures
            server_wf(*final(self)),
            same_settings(*old(self), *final(self)),
            ({
                let cs = old(self).connections@;
                let ns = final(self).connections@;
                let i = conn_index(cs, dest);
                if !has_conn(cs, dest) || cs[i].state != ConnectionState::Connected {
                    r@.len() == 0 && ns == cs
                } else {
                    let c = cs[i];
                    let mtu = outbound_mtu(c.mtu_size);
                    let split = payload@.len() > mtu - SINGLE_FRAME_OVERHEAD;
                    let fs = out_frames(payload@, mtu, c.next_split_id, c.reliable_index, c.order_indices@[0]);
                    let groups = pack(fs, mtu as nat);
                    let n = ns[i];
                    &&& bufs_view(r@) == datagrams_spec(groups, c.send_seq)
                    &&& only_changed(cs, ns, i)
                    &&& n == (Connection {
                        send_seq: n.send_seq,
                        reliable_index: n.reliable_index,
                        order_indices: n.order_indices,
                        next_split_id: n.next_split_id,
                        pending_frames: n.pending_frames,
                        ..c
                    })
                    &&& n.send_seq == wrap32(c.send_seq + groups.len())
                    &&& n.reliable_index == wrap32(c.reliable_index + 1)
                    &&& n.order_indices@ == c.order_indices@.update(0, wrap32(c.order_indices@[0] + 1))
                    &&& n.next_split_id == (if split { wrap16(c.next_split_id + 1) } else { c.next_split_id })
                    &&& pending_after(c.pending_frames@, n.pending_frames@, bufs_view(r@), c.send_seq, c.reliable_index, now_ms)
                }
            }),
    {
        let ghost cs = self.connections@;
        let mut datagrams: Vec<Vec<u8>> = Vec::new();
        let i = match self.find_conn(dest) {
            Some(i) => i,
            None => return datagrams,
        };
        if self.connections[i].state != ConnectionState::Connected {
            return datagrams;
        }
        let mut c = self.connections.remove(i);
        let ghost c0 = c;
        proof {
            assert(c == cs[i as int]);
        }
        let mtu: u16 = if c.mtu_size > MIN_OUTBOUND_MTU { c.mtu_size } else { MIN_OUTBOUND_MTU };
        let rel_idx = c.reliable_index;
        c.reliable_index = c.reliable_index.wrapping_add(1);
        let ord_idx = c.order_indices[0];
        c.order_indices[0] = ord_idx.wrapping_add(1);
        let max_single: usize = (mtu - SINGLE_FRAME_OVERHEAD) as usize;
        let mut frames: Vec<Frame> = if payload.len() <= max_single {
            let mut v: Vec<Frame> = Vec::new();
            v.push(Frame {
                reliability: Reliability::ReliableOrdered,
                is_split: false,
                reliable_index: Some(rel_idx),
                sequence_index: None,
                order_index: Some(ord_idx),
                order_channel: 0,
                split_count: None,
                split_id: None,
                split_index: None,
                body: payload,
            });
            v
        } else {
            let split_id = c.next_split_id;
            c.next_split_id = c.next_split_id.wrapping_add(1);
            split_payload(payload.as_slice(), mtu, split_id, Reliability::ReliableOrdered, 0, rel_idx, ord_idx)
        };
        let ghost fs = frame_views(frames@);
        proof {
            assert(fs =~= out_frames(payload@, mtu, c0.next_split_id, rel_idx, ord_idx));
        }
        let ghost c1 = c;
        let ghost mut groups: Seq<Seq<FrameView>> = Seq::empty();
        let mtu_us: usize = mtu as usize;
        proof {
            assert(c.pending_frames@.take(c1.pending_frames@.len() as int) =~= c1.pending_frames@);
            assert(bufs_view(datagrams@) =~= Seq::<Seq<u8>>::empty());
            assert(datagrams_spec(groups, c1.send_seq) =~= Seq::<Seq<u8>>::empty());
            assert(c1.send_seq + 0 == c1.send_seq);
        }
        while frames.len() > 0
            invariant
                mtu_us == mtu as usize,
                pack(fs, mtu as nat) == groups + pack(frame_views(frames@), mtu as nat),
                bufs_view(datagrams@) == datagrams_spec(groups, c1.send_seq),
                c.send_seq == wrap32(c1.send_seq + groups.len()),
                c == (Connection { send_seq: c.send_seq, pending_frames: c.pending_frames, ..c1 }),
                pending_after(c1.pending_frames@, c.pending_frames@, bufs_view(datagrams@), c1.send_seq, rel_idx, now_ms),
            decreases frames@.len(),
        {
            let seq = c.send_seq;
            c.send_seq = c.send_seq.wrapping_add(1);
            let ghost rem = frame_views(frames@);
            let mut entry = FrameSetEntry { sequence_number: seq, frames: Vec::new() };
            let mut size: usize = 4;
            let ghost mut tsize: nat = 4;
            let mut t: usize = 0;
            let mut stop = false;
            let nfr = frames.len();
            assert(rem.skip(0) =~= rem);
            assert(rem.take(0) =~= Seq::<FrameView>::empty());
            assert(frame_views(entry.frames@) =~= Seq::<FrameView>::empty());
            while frames.len() > 0 && !stop
                invariant
                    mtu_us == mtu as usize,
                    rem.len() == nfr,
                    t <= rem.len(),
                    frame_views(frames@) == rem.skip(t as int),
                    frame_views(entry.frames@) == rem.take(t as int),
                    entry.sequence_number == seq,
                    size == tsize || (size == usize::MAX && tsize >= usize::MAX),
                    take_count(rem, 4, mtu as nat, true) == t + (if stop { 0 } else {
                        take_count(rem.skip(t as int), tsize, mtu as nat, t == 0)
                    }),
                    stop ==> t > 0,
                decreases frames@.len(), (if stop { 0int } else { 1int }),
            {
                let enc = encode_frame(&frames[0]);
                let l = enc.len();
                proof {
                    assert(frames@[0]@ == rem[t as int]);
                    lemma_take_step(rem, t as int, tsize, mtu as nat, t == 0);
                }
                let over = size > mtu_us || l > mtu_us - size;
                if over && t > 0 {
                    stop = true;
                } else {
                    size = if l > usize::MAX - size { usize::MAX } else { size + l };
                    proof {
                        tsize = tsize + l as nat;
                    }
                    let ghost old_frames = frames@;
                    let ghost old_entry = entry.frames@;
                    let f = frames.remove(0);
                    entry.frames.push(f);
                    proof {
                        assert(frame_views(old_frames) == rem.skip(t as int));
                        assert(f == old_frames[0]);
                        assert forall|k: int| 0 <= k < frames@.len() implies #[trigger] frame_views(frames@)[k] == rem.skip(t + 1)[k] by {
                            assert(frames@[k] == old_frames[k + 1]);
                            assert(frame_views(old_frames)[k + 1] == rem.skip(t as int)[k + 1]);
                        }
                        assert(frame_views(frames@) =~= rem.skip(t + 1));
                        assert(frame_views(old_entry).len() == t);
                        assert(entry.frames@ == old_entry.push(f));
                        assert forall|k: int| 0 <= k < entry.frames@.len() implies #[trigger] frame_views(entry.frames@)[k] == rem.take(t + 1)[k] by {
                            if k < t {
                                assert(entry.frames@[k] == old_entry[k]);
                                assert(frame_views(old_entry)[k] == rem.take(t as int)[k]);
                            } else {
                                assert(entry.frames@[k] == f);
                                assert(frame_views(old_frames)[0] == rem.skip(t as int)[0]);
                            }
                        }
                        assert(frame_views(entry.frames@) =~= rem.take(t + 1));
                    }
                    t = t + 1;
                }
            }
            proof {
                if !stop {
                    assert(rem.skip(t as int).len() == 0);
                }
                lemma_take_count_le(rem, 4, mtu as nat, true);
                assert(rem.take(t as int) + rem.skip(t as int) == rem);
            }
            let raw = encode_datagram(&entry);
            let keep = vstd::slice::slice_to_vec(raw.as_slice());
            let ghost j = groups.len();
            let ghost old_dg = bufs_view(datagrams@);
            let ghost old_pending = c.pending_frames@;
            c.pending_frames.push(PendingFrame {
                sequence_number: seq,
                reliable_index: rel_idx,
                raw_data: keep,
                send_time_ms: now_ms,
                retries: 0,
            });
            datagrams.push(raw);
            proof {
                let old_groups = groups;
                groups = groups.push(rem.take(t as int));
                assert(pack(rem, mtu as nat) == seq![rem.take(t as int)] + pack(rem.skip(t as int), mtu as nat));
                assert(seq == wrap32(c1.send_seq + j));
                assert(raw@ == datagram_encoding(seq, rem.take(t as int)));
                assert(bufs_view(datagrams@) =~= old_dg.push(raw@));
                assert(datagrams_spec(groups, c1.send_seq) =~= datagrams_spec(old_groups, c1.send_seq).push(raw@));
                assert(bufs_view(datagrams@) =~= datagrams_spec(groups, c1.send_seq));
                assert(groups + pack(frame_views(frames@), mtu as nat) =~= old_groups + (seq![rem.take(t as int)] + pack(rem.skip(t as int), mtu as nat)));
                let p0 = c1.pending_frames@;
                let ds = bufs_view(datagrams@);
                assert(c.pending_frames@.take(p0.len() as int) =~= p0) by {
                    assert(old_pending.take(p0.len() as int) == p0);
                }
                assert forall|q: int| 0 <= q < ds.len() implies {
                    let p = #[trigger] c.pending_frames@[p0.len() + q];
                    &&& p.sequence_number == wrap32(c1.send_seq + q)
                    &&& p.reliable_index == rel_idx
                    &&& p.raw_data@ == ds[q]
                    &&& p.send_time_ms == now_ms
                    &&& p.retries == 0
                } by {
                    if q < j {
                        assert(c.pending_frames@[p0.len() + q] == old_pending[p0.len() + q]);
                        assert(ds[q] == old_dg[q]);
                    } else {
                        assert(q == j);
                        assert(ds[q] == raw@);
                    }
                }
                assert(c.send_seq == wrap32(c1.send_seq + groups.len())) by {
                    assert(seq == wrap32(c1.send_seq + j));
                }
            }
        }
        proof {
            assert(pack(frame_views(frames@), mtu as nat) =~= Seq::<Seq<FrameView>>::empty());
            assert(groups =~= pack(fs, mtu as nat));
            lemma_update_wf(cs, i as int, c);
        }
        self.connections.insert(i, c);
        assert(self.connections@ =~= cs.update(i as int, c));
        datagrams
    }
}

/// Milliseconds from `then` to `now`; none when the clock reads earlier.
pub open spec fn elapsed(then: u64, now: u64) -> int {
    if now >= then { now - then } else { 0 }
}

/// Resending at `now`: each pending frame that has retries left and was
/// last sent at least the resend interval ago counts one more retry, is
/// stamped `now` and its bytes go out again. Gives the frames after and
/// the bytes to send, in order.
pub open spec fn resend_conn(ps: Seq<PendingFrame>, now: u64) -> (Seq<PendingFrame>, Seq<Seq<u8>>)
    decreases ps.len(),
{
    if ps.len() == 0 {
        (Seq::empty(), Seq::empty())
    } else {
        let (p1, o1) = resend_conn(ps.drop_last(), now);
        let p = ps.last();
        if p.retries >= MAX_RETRIES || elapsed(p.send_time_ms, now) < RESEND_INTERVAL_MS {
            (p1.push(p), o1)
        } else {
            (
                p1.push(PendingFrame { retries: (p.retries + 1) as u32, send_time_ms: now, ..p }),
                o1.push(p.raw_data@),
            )
        }
    }
}

/// What resending at `now` sends, connection after connection, each with
/// the client's address.
pub open spec fn resend_out(cs: Seq<Connection>, now: u64) -> Seq<(NetAddress, Seq<u8>)>
    decreases cs.len(),
{
    if cs.len() == 0 {
        Seq::empty()
    } else {
        let c = cs.last();
        resend_out(cs.drop_last(), now) + resend_conn(c.pending_frames@, now).1.map_values(
            |b: Seq<u8>| (c.addr, b),
        )
    }
}

/// The address and bytes of each outgoing datagram.
pub open spec fn sends_view(v: Seq<(NetAddress, Vec<u8>)>) -> Seq<(NetAddress, Seq<u8>)> {
    v.map_values(|x: (NetAddress, Vec<u8>)| (x.0, x.1@))
}

/// A connected client not heard from for longer than the timeout.
pub open spec fn is_stale(c: Connection, now: u64) -> bool {
    c.state == ConnectionState::Connected && elapsed(c.last_recv_ms, now) > CONNECTION_TIMEOUT_MS
}

/// The connections that stay at `now`, in order.
pub open spec fn kept_conns(cs: Seq<Connection>, now: u64) -> Seq<Connection>
    decreases cs.len(),
{
    if cs.len() == 0 {
        Seq::empty()
    } else if is_stale(cs.last(), now) {
        kept_conns(cs.drop_last(), now)
    } else {
        kept_conns(cs.drop_last(), now).push(cs.last())
    }
}

/// The addresses of the connections that time out at `now`, in order.
pub open spec fn dropped_addrs(cs: Seq<Connection>, now: u64) -> Seq<NetAddress>
    decreases cs.len(),
{
    if cs.len() == 0 {
        Seq::empty()
    } else if is_stale(cs.last(), now) {
        dropped_addrs(cs.drop_last(), now).push(cs.last().addr)
    } else {
        dropped_addrs(cs.drop_last(), now)
    }
}

/// The pending frames that still have retries left, in order.
pub open spec fn live_frames(ps: Seq<PendingFrame>) -> Seq<PendingFrame>
    decreases ps.len(),
{
    if ps.len() == 0 {
        Seq::empty()
    } else if ps.last().retries < MAX_RETRIES {
        live_frames(ps.drop_last()).push(ps.last())
    } else {
        live_frames(ps.drop_last())
    }
}

/// Every connection of `kept` has the address of a connection of `cs`
/// before position `n`.
pub open spec fn addrs_from(kept: Seq<Connection>, cs: Seq<Connection>, n: int) -> bool {
    forall|k: int| 0 <= k < kept.len() ==> exists|j: int| 0 <= j < n && (#[trigger] cs[j]).addr == (#[trigger] kept[k]).addr
}

impl RaknetServer {
    /// Resend at `now_ms`, connection after connection, the pending frames
    /// that are due, as `resend_conn` says; returns each client's address
    /// with the bytes to send.
    pub fn resend_pending(&mut self, now_ms: u64) -> (r: Vec<(NetAddress, Vec<u8>)>)
        requires
            server_wf(*old(self)),
        ensures
            server_wf(*final(self)),
            same_settings(*old(self), *final(self)),
            ({
                let cs = old(self).connections@;
                let ns = final(self).connections@;
                &&& ns.len() == cs.len()
                &&& forall|i: int| 0 <= i < cs.len() ==> {
                    &&& #[trigger] ns[i] == (Connection { pending_frames: ns[i].pending_frames, ..cs[i] })
                    &&& ns[i].pending_frames@ == resend_conn(cs[i].pending_frames@, now_ms).0
                }
                &&& sends_view(r@) == resend_out(cs, now_ms)
            }),
    {
        let ghost cs = self.connections@;
        let mut out: Vec<(NetAddress, Vec<u8>)> = Vec::new();
        let mut i: usize = 0;
        while i < self.connections.len()
            invariant
                i <= self.connections@.len(),
                self.connections@.len() == cs.len(),
                server_wf(*self),
                same_settings(*old(self), *self),
                forall|k: int| i <= k < cs.len() ==> #[trigger] self.connections@[k] == cs[k],
                forall|k: int| 0 <= k < i ==> {
                    &&& #[trigger] self.connections@[k] == (Connection { pending_frames: self.connections@[k].pending_frames, ..cs[k] })
                    &&& self.connections@[k].pending_frames@ == resend_conn(cs[k].pending_frames@, now_ms).0
                },
                sends_view(out@) == resend_out(cs.take(i as int), now_ms),
            decreases cs.len() - i,
        {
            let ghost before = self.connections@;
            let mut c = self.connections.remove(i);
            let ghost c0 = c;
            let addr = c.addr;
            let ghost ps = c.pending_frames@;
            let mut rest: Vec<PendingFrame> = Vec::new();
            std::mem::swap(&mut rest, &mut c.pending_frames);
            let total = rest.len();
            let mut done: Vec<PendingFrame> = Vec::new();
            let ghost out0 = sends_view(out@);
            let mut n: usize = 0;
            while rest.len() > 0
                invariant
                    n <= ps.len(),
                    ps.len() == total,
                    addr == c0.addr,
                    rest@.len() + n == ps.len(),
                    rest@ == ps.skip(n as int),
                    done@ == resend_conn(ps.take(n as int), now_ms).0,
                    sends_view(out@) == out0 + resend_conn(ps.take(n as int), now_ms).1.map_values(
                        |b: Seq<u8>| (c0.addr, b),
                    ),
                decreases rest@.len(),
            {
                let mut f = rest.remove(0);
                let ghost f0 = f;
                let ghost before_out = sends_view(out@);
                proof {
                    assert(ps.take(n + 1).drop_last() == ps.take(n as int));
                    assert(ps.take(n + 1).last() == f0);
                }
                let age: u64 = if now_ms >= f.send_time_ms { now_ms - f.send_time_ms } else { 0 };
                if f.retries < MAX_RETRIES && age >= RESEND_INTERVAL_MS {
                    f.retries = f.retries + 1;
                    f.send_time_ms = now_ms;
                    let raw = vstd::slice::slice_to_vec(f.raw_data.as_slice());
                    out.push((addr, raw));
                    proof {
                        assert(f == (PendingFrame { retries: (f0.retries + 1) as u32, send_time_ms: now_ms, ..f0 }));
                        assert(sends_view(out@) =~= before_out.push((c0.addr, raw@)));
                        let o = resend_conn(ps.take(n as int), now_ms).1;
                        assert(o.push(f0.raw_data@).map_values(|b: Seq<u8>| (c0.addr, b)) =~= o.map_values(
                            |b: Seq<u8>| (c0.addr, b),
                        ).push((c0.addr, raw@)));
                    }
                }
                done.push(f);
                n = n + 1;
            }
            proof {
                assert(ps.take(n as int) == ps);
            }
            c.pending_frames = done;
            proof {
                assert(c == (Connection { pending_frames: c.pending_frames, ..cs[i as int] }));
                assert(conn_wf(c));
                lemma_update_wf(before.remove(i as int).insert(i as int, c0), i as int, c);
                assert(before.remove(i as int).insert(i as int, c0) =~= before);
                assert(cs.take(i + 1).drop_last() == cs.take(i as int));
                assert(cs.take(i + 1).last() == c0);
            }
            self.connections.insert(i, c);
            proof {
                assert(self.connections@ =~= before.update(i as int, c));
            }
            i = i + 1;
        }
        proof {
            assert(cs.take(i as int) == cs);
        }
        out
    }

    /// Drop at `now_ms` the connected clients not heard from for longer
    /// than the timeout, returning their addresses in order; then, on the
    /// connections kept, drop the pending frames out of retries and the
    /// split packets past their timeout.
    pub fn timeout_stale(&mut self, now_ms: u64) -> (r: Vec<NetAddress>)
        requires
            server_wf(*old(self)),
        ensures
            server_wf(*final(self)),
            same_settings(*old(self), *final(self)),
            ({
                let kept = kept_conns(old(self).connections@, now_ms);
                let ns = final(self).connections@;
                &&& r@ == dropped_addrs(old(self).connections@, now_ms)
                &&& ns.len() == kept.len()
                &&& forall|i: int| 0 <= i < kept.len() ==> {
                    &&& #[trigger] ns[i] == (Connection {
                        pending_frames: ns[i].pending_frames,
                        split_packets: ns[i].split_packets,
                        ..kept[i]
                    })
                    &&& ns[i].pending_frames@ == live_frames(kept[i].pending_frames@)
                    &&& ns[i].split_packets@ == expire_spec(kept[i].split_packets@, now_ms)
                }
            }),
    {
        let ghost cs = self.connections@;
        let mut rest: Vec<Connection> = Vec::new();
        std::mem::swap(&mut rest, &mut self.connections);
        let total = rest.len();
        let mut kept: Vec<Connection> = Vec::new();
        let mut dropped: Vec<NetAddress> = Vec::new();
        let mut n: usize = 0;
        while rest.len() > 0
            invariant
                n <= cs.len(),
                cs.len() == total,
                rest@.len() + n == cs.len(),
                rest@ == cs.skip(n as int),
                addrs_unique(cs),
                forall|j: int| 0 <= j < cs.len() ==> conn_wf(#[trigger] cs[j]),
                kept@ == kept_conns(cs.take(n as int), now_ms),
                dropped@ == dropped_addrs(cs.take(n as int), now_ms),
                addrs_unique(kept@),
                addrs_from(kept@, cs, n as int),
            decreases rest@.len(),
        {
            let c = rest.remove(0);
            proof {
                assert(cs.take(n + 1).drop_last() == cs.take(n as int));
                assert(cs.take(n + 1).last() == c);
                assert(c == cs[n as int]);
            }
            let age: u64 = if now_ms >= c.last_recv_ms { now_ms - c.last_recv_ms } else { 0 };
            if c.state == ConnectionState::Connected && age > CONNECTION_TIMEOUT_MS {
                dropped.push(c.addr);
                proof {
                    assert forall|k: int| 0 <= k < kept@.len() implies exists|j: int| 0 <= j < n + 1 && (#[trigger] cs[j]).addr == (#[trigger] kept@[k]).addr by {
                        let j = choose|j: int| 0 <= j < n && (#[trigger] cs[j]).addr == (#[trigger] kept@[k]).addr;
                        assert(0 <= j < n + 1 && cs[j].addr == kept@[k].addr);
                    }
                }
            } else {
                let ghost old_kept = kept@;
                proof {
                    assert forall|k: int| 0 <= k < old_kept.len() implies old_kept[k].addr != c.addr by {
                        let j = choose|j: int| 0 <= j < n && (#[trigger] cs[j]).addr == (#[trigger] old_kept[k]).addr;
                        assert(cs[j].addr != cs[n as int].addr);
                    }
                }
                kept.push(c);
                proof {
                    assert forall|a: int, b: int| 0 <= a < b < kept@.len() implies (#[trigger] kept@[a]).addr != (#[trigger] kept@[b]).addr by {
                        if b == old_kept.len() {
                            assert(kept@[a] == old_kept[a]);
                        } else {
                            assert(kept@[a] == old_kept[a]);
                            assert(kept@[b] == old_kept[b]);
                        }
                    }
                    assert forall|k: int| 0 <= k < kept@.len() implies exists|j: int| 0 <= j < n + 1 && (#[trigger] cs[j]).addr == (#[trigger] kept@[k]).addr by {
                        if k < old_kept.len() {
                            assert(kept@[k] == old_kept[k]);
                            let j = choose|j: int| 0 <= j < n && (#[trigger] cs[j]).addr == (#[trigger] old_kept[k]).addr;
                            assert(0 <= j < n + 1 && cs[j].addr == kept@[k].addr);
                        } else {
                            assert(kept@[k] == cs[n as int]);
                        }
                    }
                }
            }
            n = n + 1;
        }
        proof {
            assert(cs.take(n as int) == cs);
            lemma_kept_wf(cs, now_ms);
        }
        let ghost ks = kept@;
        let mut i: usize = 0;
        while i < kept.len()
            invariant
                i <= kept@.len(),
                kept@.len() == ks.len(),
                addrs_unique(kept@),
                forall|k: int| 0 <= k < kept@.len() ==> conn_wf(#[trigger] kept@[k]),
                forall|k: int| i <= k < ks.len() ==> #[trigger] kept@[k] == ks[k],
                forall|k: int| 0 <= k < i ==> {
                    &&& #[trigger] kept@[k] == (Connection {
                        pending_frames: kept@[k].pending_frames,
                        split_packets: kept@[k].split_packets,
                        ..ks[k]
                    })
                    &&& kept@[k].pending_frames@ == live_frames(ks[k].pending_frames@)
                    &&& kept@[k].split_packets@ == expire_spec(ks[k].split_packets@, now_ms)
                },
            decreases ks.len() - i,
        {
            let ghost before = kept@;
            let mut c = kept.remove(i);
            let ghost c0 = c;
            let ghost ps = c.pending_frames@;
            let mut pend: Vec<PendingFrame> = Vec::new();
            std::mem::swap(&mut pend, &mut c.pending_frames);
            let ptotal = pend.len();
            let mut live: Vec<PendingFrame> = Vec::new();
            let mut m: usize = 0;
            while pend.len() > 0
                invariant
                    m <= ps.len(),
                    ps.len() == ptotal,
                    pend@.len() + m == ps.len(),
                    pend@ == ps.skip(m as int),
                    live@ == live_frames(ps.take(m as int)),
                decreases pend@.len(),
            {
                let f = pend.remove(0);
                proof {
                    assert(ps.take(m + 1).drop_last() == ps.take(m as int));
                    assert(ps.take(m + 1).last() == f);
                }
                if f.retries < MAX_RETRIES {
                    live.push(f);
                }
                m = m + 1;
            }
            proof {
                assert(ps.take(m as int) == ps);
            }
            c.pending_frames = live;
            c.expire_split_packets(now_ms);
            proof {
                assert(c0 == ks[i as int]);
                lemma_update_wf(before, i as int, c);
            }
            kept.insert(i, c);
            proof {
                assert(kept@ =~= before.update(i as int, c));
            }
            i = i + 1;
        }
        self.connections = kept;
        dropped
    }
}

/// The connections kept are a well-formed server's connections.
proof fn lemma_kept_wf(cs: Seq<Connection>, now: u64)
    requires
        forall|j: int| 0 <= j < cs.len() ==> conn_wf(#[trigger] cs[j]),
    ensures
        forall|k: int| 0 <= k < kept_conns(cs, now).len() ==> conn_wf(#[trigger] kept_conns(cs, now)[k]),
    decreases cs.len(),
{
    if cs.len() > 0 {
        let t = cs.drop_last();
        assert forall|j: int| 0 <= j < t.len() implies conn_wf(#[trigger] t[j]) by {
            assert(t[j] == cs[j]);
        }
        lemma_kept_wf(t, now);
        assert(conn_wf(cs[cs.len() - 1]));
        let kt = kept_conns(t, now);
        let kc = kept_conns(cs, now);
        if !is_stale(cs.last(), now) {
            assert(kc == kt.push(cs.last()));
            assert forall|k: int| 0 <= k < kc.len() implies conn_wf(#[trigger] kc[k]) by {
                if k < kt.len() {
                    assert(kc[k] == kt[k]);
                }
            }
        }
    }
}

/// The ACK bytes and completed bodies of a frame set's result.
pub open spec fn frames_result_view(r: Option<(Vec<u8>, Vec<Vec<u8>>)>) -> Option<(Seq<u8>, Seq<Seq<u8>>)> {
    match r {
        Some((ack, out)) => Some((ack@, bufs_view(out@))),
        None => None,
    }
}

/// `new` is what an ACK of the ranges `rs` from `src` makes of `old`:
/// every pending frame of that client whose sequence number a range covers
/// is dropped.
pub open spec fn ack_handled(old: RaknetServer, new: RaknetServer, src: NetAddress, rs: Seq<SequenceRange>) -> bool {
    let cs = old.connections@;
    let ns = new.connections@;
    &&& same_settings(old, new)
    &&& if has_conn(cs, src) {
        let i = conn_index(cs, src);
        &&& only_changed(cs, ns, i)
        &&& ns[i] == (Connection { pending_frames: ns[i].pending_frames, ..cs[i] })
        &&& ns[i].pending_frames@ == unacked(cs[i].pending_frames@, rs)
    } else {
        ns == cs
    }
}

/// `new` and the bytes `out` to send again are what a NACK of the ranges
/// `rs` from `src` at `now` gives on `old`, as `nack_spec` says.
pub open spec fn nack_handled(
    old: RaknetServer,
    new: RaknetServer,
    src: NetAddress,
    rs: Seq<SequenceRange>,
    now: u64,
    out: Seq<Seq<u8>>,
) -> bool {
    let cs = old.connections@;
    let ns = new.connections@;
    &&& same_settings(old, new)
    &&& if has_conn(cs, src) {
        let i = conn_index(cs, src);
        let (ps, o) = nack_spec(cs[i].pending_frames@, nack_seqs(rs), now);
        &&& only_changed(cs, ns, i)
        &&& ns[i] == (Connection { pending_frames: ns[i].pending_frames, ..cs[i] })
        &&& ns[i].pending_frames@ == ps
        &&& out == o
    } else {
        &&& ns == cs
        &&& out.len() == 0
    }
}

/// `new` and `r` (the ACK bytes and the completed bodies) are what a frame
/// set numbered `seq` carrying `frames` from `src` at `now` gives on `old`.
/// A new number is added to the connection's received ranges, which stay
/// in canonical form (a set of numbers has only one), and the ACK lists
/// those ranges.
pub open spec fn frames_handled(
    old: RaknetServer,
    new: RaknetServer,
    src: NetAddress,
    seq: u32,
    frames: Seq<Frame>,
    now: u64,
    r: Option<(Seq<u8>, Seq<Seq<u8>>)>,
) -> bool {
    let cs = old.connections@;
    let ns = new.connections@;
    let i = conn_index(cs, src);
    &&& same_settings(old, new)
    &&& if !has_conn(cs, src) || cs[i].state != ConnectionState::Connected {
        r is None && ns == cs
    } else if in_ranges(cs[i].recv_queue.spec_ranges(), seq) {
        r is None && ns == cs.update(i, Connection { last_recv_ms: now, ..cs[i] })
    } else {
        let rs = ns[i].recv_queue.spec_ranges();
        let (sp, done) = frames_fold(splits_view(cs[i].split_packets@), frames, now);
        &&& r == Some((ack_encoding(ack_ranges(rs), false), done))
        &&& only_changed(cs, ns, i)
        &&& ns[i] == (Connection {
            last_recv_ms: now,
            recv_queue: ns[i].recv_queue,
            split_packets: ns[i].split_packets,
            ..cs[i]
        })
        &&& ranges_wf(rs)
        &&& covers_with(rs, cs[i].recv_queue.spec_ranges(), seq)
        &&& splits_view(ns[i].split_packets@) == expire_view(sp, now)
    }
}

/// What handling one inbound packet gives.
#[derive(Debug)]
pub struct InboundOutcome {
    /// Datagrams to send back to the source, in order.
    pub replies: Vec<Vec<u8>>,
    /// Events for the rest of the server, in order.
    pub events: Vec<ServerEvent>,
    /// The reply answers Open Connection Request 1 with this requested
    /// MTU: once it has been sent, `begin_handshake` records it.
    pub handshake_mtu: Option<u16>,
}

/// `new` and `r` are what handling the packet `p` from `src` at `now`
/// gives on `old`: offline packets are answered as `offline_handled` says,
/// with the reply's bytes and a `Connected` event when the handshake
/// completes; ACKs and NACKs as `ack_handled` and `nack_handled` say; a
/// frame set as `frames_handled` says, with its ACK as the reply and one
/// `GamePacket` event per completed body.
pub open spec fn packet_handled(
    old: RaknetServer,
    new: RaknetServer,
    src: NetAddress,
    p: RaknetPacket,
    now: u64,
    r: InboundOutcome,
) -> bool {
    match p {
        RaknetPacket::Offline(op) => exists|o: OfflineOutcome| {
            &&& #[trigger] offline_handled(old, new, src, op, now, o)
            &&& r.handshake_mtu == o.handshake_mtu
            &&& match o.reply {
                Some(rp) => bufs_view(r.replies@) == seq![offline_encoding(rp)],
                None => r.replies@.len() == 0,
            }
            &&& if o.connected {
                r.events@.len() == 1 && r.events@[0] == ServerEvent::Connected(src)
            } else {
                r.events@.len() == 0
            }
        },
        RaknetPacket::Ack(a) => {
            &&& ack_handled(old, new, src, a.sequences@)
            &&& r.replies@.len() == 0
            &&& r.events@.len() == 0
            &&& r.handshake_mtu is None
        },
        RaknetPacket::Nack(n) => {
            &&& nack_handled(old, new, src, n.sequences@, now, bufs_view(r.replies@))
            &&& r.events@.len() == 0
            &&& r.handshake_mtu is None
        },
        RaknetPacket::FrameSet { sequence_number, frames } => exists|res: Option<(Seq<u8>, Seq<Seq<u8>>)>| {
            &&& #[trigger] frames_handled(old, new, src, sequence_number, frames@, now, res)
            &&& r.handshake_mtu is None
            &&& match res {
                Some((ack, done)) => {
                    &&& bufs_view(r.replies@) == seq![ack]
                    &&& r.events@.len() == done.len()
                    &&& forall|k: int| 0 <= k < done.len() ==> (#[trigger] r.events@[k] matches ServerEvent::GamePacket(a, b) && a == src && b@ == done[k])
                },
                None => r.replies@.len() == 0 && r.events@.len() == 0,
            }
        },
    }
}

impl RaknetServer {
    /// Handle one packet from `src` at `now_ms` as `packet_handled` says.
    pub fn handle_packet(&mut self, src: NetAddress, packet: RaknetPacket, now_ms: u64) -> (r: InboundOutcome)
        requires
            server_wf(*old(self)),
        ensures
            server_wf(*final(self)),
            packet_handled(*old(self), *final(self), src, packet, now_ms, r),
    {
        let ghost p0 = packet;
        let mut replies: Vec<Vec<u8>> = Vec::new();
        let mut events: Vec<ServerEvent> = Vec::new();
        match packet {
            RaknetPacket::Offline(op) => {
                let o = self.handle_offline(src, op, now_ms);
                match &o.reply {
                    Some(rp) => {
                        let raw = encode_offline(rp);
                        replies.push(raw);
                        assert(bufs_view(replies@) =~= seq![offline_encoding(*rp)]);
                    },
                    None => {},
                }
                if o.connected {
                    events.push(ServerEvent::Connected(src));
                }
                let hm = o.handshake_mtu;
                let r = InboundOutcome { replies, events, handshake_mtu: hm };
                assert(offline_handled(*old(self), *self, src, op, now_ms, o));
                r
            },
            RaknetPacket::Ack(a) => {
                self.handle_ack(src, &a);
                InboundOutcome { replies, events, handshake_mtu: None }
            },
            RaknetPacket::Nack(n) => {
                let resend = self.handle_nack(src, &n, now_ms);
                InboundOutcome { replies: resend, events, handshake_mtu: None }
            },
            RaknetPacket::FrameSet { sequence_number, frames } => {
                let ghost fs = frames@;
                let res = self.handle_frames(src, sequence_number, frames, now_ms);
                let ghost rv = frames_result_view(res);
                match res {
                    Some((ack, mut done)) => {
                        let ghost dv = bufs_view(done@);
                        replies.push(ack);
                        let ghost ack_v = replies@[0]@;
                        let total = done.len();
                        let mut k: usize = 0;
                        while done.len() > 0
                            invariant
                                k <= dv.len(),
                                dv.len() == total,
                                done@.len() + k == dv.len(),
                                forall|q: int| 0 <= q < done@.len() ==> (#[trigger] done@[q])@ == dv[k + q],
                                events@.len() == k,
                                forall|q: int| 0 <= q < k ==> (#[trigger] events@[q] matches ServerEvent::GamePacket(a, b) && a == src && b@ == dv[q]),
                            decreases done@.len(),
                        {
                            let ghost before = done@;
                            let b = done.remove(0);
                            assert(b@ == dv[k as int]) by {
                                assert(before[0]@ == dv[k + 0]);
                            }
                            assert forall|q: int| 0 <= q < done@.len() implies (#[trigger] done@[q])@ == dv[k + 1 + q] by {
                                assert(done@[q] == before[q + 1]);
                            }
                            events.push(ServerEvent::GamePacket(src, b));
                            k = k + 1;
                        }
                        assert(bufs_view(replies@) =~= seq![ack_v]);
                        let r = InboundOutcome { replies, events, handshake_mtu: None };
                        assert(frames_handled(*old(self), *self, src, sequence_number, fs, now_ms, rv));
                        r
                    },
                    None => {
                        let r = InboundOutcome { replies, events, handshake_mtu: None };
                        assert(frames_handled(*old(self), *self, src, sequence_number, fs, now_ms, rv));
                        r
                    },
                }
            },
        }
    }
}

/// Packing frames into datagrams keeps every frame, in order: the
/// datagrams' frames one after another are the frames packed.
pub proof fn law_pack_keeps_frames(fs: Seq<FrameView>, mtu: nat)
    ensures
        pack(fs, mtu).flatten() == fs,
    decreases fs.len(),
{
    if fs.len() > 0 {
        let k = take_count(fs, 4, mtu, true);
        lemma_take_count_le(fs, 4, mtu, true);
        let rest = fs.skip(k as int);
        law_pack_keeps_frames(rest, mtu);
        let p = pack(fs, mtu);
        assert(p == seq![fs.take(k as int)] + pack(rest, mtu));
        assert(p.drop_first() == pack(rest, mtu));
        assert(p.first() == fs.take(k as int));
        assert(fs.take(k as int) + rest == fs);
    }
}

/// `n`, the length divided by the chunk size rounded up, is the count of
/// chunk-sized pieces that cover the length and no fewer.
proof fn lemma_piece_bounds(len: int, chunk: int)
    requires
        chunk > 0,
        len >= 0,
    ensures
        ({
            let n = (len + chunk - 1) / chunk;
            &&& n >= 0
            &&& n * chunk >= len
            &&& len > 0 ==> (n - 1) * chunk < len
            &&& len == 0 ==> n == 0
        }),
{
    let x = len + chunk - 1;
    let n = x / chunk;
    vstd::arithmetic::div_mod::lemma_fundamental_div_mod(x, chunk);
    vstd::arithmetic::div_mod::lemma_mod_pos_bound(x, chunk);
    assert(chunk * n == n * chunk) by (nonlinear_arith);
    assert((n - 1) * chunk == n * chunk - chunk) by (nonlinear_arith);
    assert(n >= 0) by (nonlinear_arith)
        requires
            x == chunk * n + x % chunk,
            0 <= x % chunk < chunk,
            x >= 0,
            chunk > 0,
    ;
    if len == 0 {
        assert(n == 0) by (nonlinear_arith)
            requires
                x == chunk * n + x % chunk,
                0 <= x % chunk < chunk,
                x == chunk - 1,
                n >= 0,
                chunk > 0,
        ;
    }
}

/// The bodies of the first `k` split frames are the first `k` pieces of
/// the body.
#[verifier::spinoff_prover]
proof fn lemma_split_prefix(body: Seq<u8>, mtu: u16, split_id: u16, r: Reliability, ch: u8, rel: u32, ord: u32, k: int)
    requires
        0 <= k <= split_frames_spec(body, mtu, split_id, r, ch, rel, ord).len(),
    ensures
        concat_bodies(split_frames_spec(body, mtu, split_id, r, ch, rel, ord).take(k)) == body.subrange(
            0,
            if k * split_chunk_size(mtu) < body.len() { k * split_chunk_size(mtu) } else { body.len() as int },
        ),
    decreases k,
{
    let fs = split_frames_spec(body, mtu, split_id, r, ch, rel, ord);
    let chunk = split_chunk_size(mtu) as int;
    if k == 0 {
        assert(fs.take(0) =~= Seq::<FrameView>::empty());
        assert(body.subrange(0, 0) =~= Seq::<u8>::empty());
        assert(0 * chunk == 0);
    } else {
        lemma_split_prefix(body, mtu, split_id, r, ch, rel, ord, k - 1);
        let n = fs.len() as int;
        lemma_piece_bounds(body.len() as int, chunk);
        vstd::arithmetic::mul::lemma_mul_inequality(k - 1, n - 1, chunk);
        assert(k * chunk == (k - 1) * chunk + chunk) by (nonlinear_arith);
        let lo = (k - 1) * chunk;
        let hi = if k * chunk < body.len() { k * chunk } else { body.len() as int };
        assert(body.len() > 0);
        assert(lo < body.len());
        assert(fs.take(k).drop_last() == fs.take(k - 1));
        assert(fs.take(k).last() == fs[k - 1]);
        assert(fs[k - 1].body == body.subrange(lo, hi));
        assert(concat_bodies(fs.take(k)) == concat_bodies(fs.take(k).drop_last()) + fs.take(k).last().body);
        assert(concat_bodies(fs.take(k - 1)) == body.subrange(0, lo));
        assert(body.subrange(0, lo) + body.subrange(lo, hi) =~= body.subrange(0, hi));
    }
}

/// The bodies of an outbound message's frames, one after another, are the
/// payload, however it was split.
pub proof fn law_out_frames_bodies(payload: Seq<u8>, mtu: u16, split_id: u16, rel: u32, ord: u32)
    requires
        mtu >= MIN_OUTBOUND_MTU,
    ensures
        concat_bodies(out_frames(payload, mtu, split_id, rel, ord)) == payload,
{
    let fs = out_frames(payload, mtu, split_id, rel, ord);
    if payload.len() <= mtu - SINGLE_FRAME_OVERHEAD {
        assert(fs.drop_last() =~= Seq::<FrameView>::empty());
        assert(concat_bodies(fs) == concat_bodies(fs.drop_last()) + fs.last().body);
        assert(concat_bodies(fs) =~= payload);
    } else {
        let n = fs.len();
        let chunk = split_chunk_size(mtu) as int;
        lemma_split_prefix(payload, mtu, split_id, Reliability::ReliableOrdered, 0, rel, ord, n as int);
        assert(fs.take(n as int) == fs);
        lemma_piece_bounds(payload.len() as int, chunk);
        assert(payload.subrange(0, payload.len() as int) == payload);
    }
}

/// An ACK leaves exactly the pending frames it does not cover: none of
/// those kept is covered, every frame it does not cover is kept, and
/// nothing else appears.
pub proof fn law_ack_clears(fs: Seq<PendingFrame>, rs: Seq<SequenceRange>)
    ensures
        forall|i: int| 0 <= i < unacked(fs, rs).len() ==> !seq_in(rs, (#[trigger] unacked(fs, rs)[i]).sequence_number),
        forall|p: PendingFrame| fs.contains(p) && !seq_in(rs, p.sequence_number) ==> #[trigger] unacked(fs, rs).contains(p),
        forall|p: PendingFrame| #[trigger] unacked(fs, rs).contains(p) ==> fs.contains(p),
    decreases fs.len(),
{
    if fs.len() > 0 {
        let t = fs.drop_last();
        let last = fs.last();
        law_ack_clears(t, rs);
        let u = unacked(t, rs);
        let w = unacked(fs, rs);
        assert forall|i: int| 0 <= i < w.len() implies !seq_in(rs, (#[trigger] w[i]).sequence_number) by {
            if i < u.len() {
                assert(w[i] == u[i]);
            }
        }
        assert forall|p: PendingFrame| fs.contains(p) && !seq_in(rs, p.sequence_number) implies #[trigger] w.contains(p) by {
            let j = choose|j: int| 0 <= j < fs.len() && fs[j] == p;
            if j < t.len() {
                assert(t[j] == p);
                assert(t.contains(p));
                assert(unacked(t, rs).contains(p));
                let k = choose|k: int| 0 <= k < u.len() && u[k] == p;
                assert(w[k] == p);
            } else {
                assert(p == last);
                assert(w[w.len() - 1] == p);
            }
        }
        assert forall|p: PendingFrame| #[trigger] w.contains(p) implies fs.contains(p) by {
            let k = choose|k: int| 0 <= k < w.len() && w[k] == p;
            if k < u.len() {
                assert(w[k] == u[k]);
                assert(u.contains(p));
                let j = choose|j: int| 0 <= j < t.len() && t[j] == p;
                assert(fs[j] == p);
            } else {
                assert(p == last);
                assert(fs[fs.len() - 1] == p);
            }
        }
    }
}

/// What a front-to-back scan finds: scanning stopped at `j` either past
/// the end with no match, or at the first match.
proof fn lemma_first_with_prefix(ps: Seq<PendingFrame>, s: u32, j: int)
    requires
        0 <= j <= ps.len(),
        first_with(ps.take(j), s) is None,
    ensures
        j == ps.len() ==> first_with(ps, s) is None,
        j < ps.len() && ps[j].sequence_number == s ==> first_with(ps, s) == Some(j),
{
    if j == ps.len() {
        assert(ps.take(j) == ps);
    } else if ps[j].sequence_number == s {
        assert(ps.take(j + 1).drop_last() == ps.take(j));
        lemma_first_with_extend(ps, s, j, j + 1, ps.len() as int);
        assert(ps.take(ps.len() as int) == ps);
    }
}

/// A match found in a prefix stays the first match of any longer prefix.
proof fn lemma_first_with_extend(ps: Seq<PendingFrame>, s: u32, i: int, m: int, n: int)
    requires
        0 <= m <= n <= ps.len(),
        first_with(ps.take(m), s) == Some(i),
    ensures
        first_with(ps.take(n), s) == Some(i),
    decreases n - m,
{
    if m < n {
        assert(ps.take(n).drop_last() == ps.take(n - 1));
        lemma_first_with_extend(ps, s, i, m, n - 1);
    }
}

} // verus!
