//! Per-player session state machine driving the Bedrock login handshake
//! and the in-game packets.
//!
//! RequestNetworkSettings → NetworkSettings → Login → PlayStatus and
//! ResourcePacksInfo → ResourcePackClientResponse → StartGame and the
//! spawn packets; then movement, chunk radius and respawn requests. The
//! packets to send are queued on the session for the network task.

use vstd::prelude::*;
use crate::bytes::{be_value, le_value, read_be, read_le};
use crate::codec::{packet_bytes, utf8_string};
use crate::login::{self, vi32, be_i32, start_game_payload, sbytes};
use crate::packet_id;
use crate::raknet_packet::Reliability;
use crate::text::{digits, decimal, owned, push_str, push_digits, push_decimal};
use crate::varint::read_var_i32;
use crate::interaction::var_i32_at;

verus! {

/// Player position and rotation, each coordinate as the bit pattern of
/// its IEEE-754 single-precision value.
#[derive(Debug, Clone, Copy, PartialEq, Eq, Structural)]
pub struct Position {
    pub x: u32,
    pub y: u32,
    pub z: u32,
    pub yaw: u32,
    pub pitch: u32,
    pub on_ground: bool,
}

/// The bits of the float 70.0.
pub const SPAWN_Y_BITS: u32 = 0x428c_0000;

/// The spawn point (0, 70, 0), on the ground.
pub open spec fn default_position() -> Position {
    Position { x: 0, y: SPAWN_Y_BITS, z: 0, yaw: 0, pitch: 0, on_ground: true }
}

impl Default for Position {
    fn default() -> (r: Self)
        ensures
            r == default_position(),
    {
        Position { x: 0, y: SPAWN_Y_BITS, z: 0, yaw: 0, pitch: 0, on_ground: true }
    }
}

/// States a session moves through while logging in and playing.
#[derive(Debug, Clone, Copy, PartialEq, Eq, Structural)]
pub enum SessionState {
    /// Waiting for the very first packet (RequestNetworkSettings).
    WaitSettings,
    /// After sending NetworkSettings; waiting for Login.
    WaitLogin,
    /// After login success + resource packs info; waiting for the client's response.
    WaitResourcePacks,
    /// After sending StartGame: the client is in the world.
    Spawned,
    /// Session closed.
    Closed,
}

/// A queued outbound packet.
#[derive(Debug)]
pub struct Outbound {
    pub data: Vec<u8>,
    pub reliability: Reliability,
    pub order_channel: u8,
}

/// Tracks a single connected player.
pub struct Session {
    pub username: String,
    pub entity_id: i64,
    pub runtime_id: u64,
    pub state: SessionState,
    pub view_distance: u32,
    pub position: Position,
    /// Packets waiting to be sent, oldest first.
    pub queue: Vec<Outbound>,
}

/// The data of queued packets.
pub open spec fn queued_data(q: Seq<Outbound>) -> Seq<Seq<u8>> {
    Seq::new(q.len(), |i: int| q[i].data@)
}

/// Every queued packet goes reliable-ordered on channel 0.
pub open spec fn queue_ok(q: Seq<Outbound>) -> bool {
    forall|i: int| 0 <= i < q.len() ==> (#[trigger] q[i]).reliability == Reliability::ReliableOrdered
        && q[i].order_channel == 0
}

/// `s2` is `s1` with `packets` queued and its other fields as given.
pub open spec fn sent(s1: Session, s2: Session, packets: Seq<Seq<u8>>) -> bool {
    &&& queued_data(s2.queue@) == queued_data(s1.queue@) + packets
    &&& (queue_ok(s1.queue@) ==> queue_ok(s2.queue@))
}

/// The bytes of "displayName".
pub open spec fn display_name_key() -> Seq<u8> {
    seq![0x64u8, 0x69, 0x73, 0x70, 0x6c, 0x61, 0x79, 0x4e, 0x61, 0x6d, 0x65]
}

/// The first position at which `n` occurs in `h`.
pub open spec fn find_sub(h: Seq<u8>, n: Seq<u8>) -> Option<int>
    decreases h.len(),
{
    if h.len() < n.len() {
        None
    } else if h.subrange(0, n.len() as int) == n {
        Some(0)
    } else if h.len() == 0 {
        None
    } else {
        match find_sub(h.drop_first(), n) {
            Some(i) => Some(i + 1),
            None => None,
        }
    }
}

/// The first position of byte `b` in `s`.
pub open spec fn find_byte(s: Seq<u8>, b: u8) -> Option<int>
    decreases s.len(),
{
    if s.len() == 0 {
        None
    } else if s[0] == b {
        Some(0)
    } else {
        match find_byte(s.drop_first(), b) {
            Some(i) => Some(i + 1),
            None => None,
        }
    }
}

/// The quoted text after the first "displayName" in a Login body, when
/// it is non-empty UTF-8.
pub open spec fn offline_username(body: Seq<u8>) -> Option<Seq<char>> {
    match find_sub(body, display_name_key()) {
        None => None,
        Some(idx) => {
            let rest = body.subrange(idx + 11, body.len() as int);
            match find_byte(rest, 0x22) {
                None => None,
                Some(start) => {
                    let after = rest.subrange(start + 1, rest.len() as int);
                    match find_byte(after, 0x22) {
                        None => None,
                        Some(end) => {
                            let name = after.subrange(0, end);
                            if name.len() == 0 || !vstd::utf8::valid_utf8(name) {
                                None
                            } else {
                                Some(vstd::utf8::decode_utf8(name))
                            }
                        },
                    }
                },
            }
        },
    }
}

/// The name of a player whose Login body names no one.
pub open spec fn default_username(entity_id: i64) -> Seq<char> {
    "Player"@ + decimal(entity_id as int)
}

/// A MovePlayer body: at least 49 bytes, a signed VarInt runtime id, then
/// x, y, z, pitch and yaw as little-endian floats; not on the ground.
pub open spec fn parse_move_spec(body: Seq<u8>) -> Option<Position> {
    if body.len() < 49 {
        None
    } else {
        let (id, n) = var_i32_at(body, 0);
        match id {
            None => None,
            Some(_) => {
                let f = |k: int| le_value(body.subrange(n + 4 * k, n + 4 * k + 4)) as u32;
                Some(Position { x: f(0), y: f(1), z: f(2), pitch: f(3), yaw: f(4), on_ground: false })
            },
        }
    }
}

/// A requested chunk radius kept between 2 and 32.
pub open spec fn clamp_radius(r: i32) -> u32 {
    if r < 2 { 2 } else if r > 32 { 32 } else { r as u32 }
}

/// The packet that refuses a client speaking another protocol.
pub open spec fn protocol_refusal(proto: u32) -> Seq<u8> {
    packet_bytes(
        packet_id::DISCONNECT,
        seq![0u8] + login::schars("Unsupported protocol "@ + digits(proto as nat) + ", expected 1001"@),
    )
}

/// The bits of the spawn point.
pub open spec fn spawn_bits() -> (u32, u32, u32) {
    (0, SPAWN_Y_BITS, 0)
}

/// The packets that drop the client into the world.
pub open spec fn spawn_packets(s: Session) -> Seq<Seq<u8>> {
    seq![
        packet_bytes(packet_id::PLAY_STATUS, be_i32(login::PLAY_STATUS_SPAWN)),
        packet_bytes(packet_id::RESOURCE_PACK_STACK, login::resource_pack_stack_payload()),
        packet_bytes(packet_id::BIOME_DEFINITION_LIST, seq![0u8]),
        packet_bytes(
            packet_id::START_GAME,
            start_game_payload(s.entity_id, s.runtime_id, 1, spawn_bits(), 0, "world"@),
        ),
        packet_bytes(packet_id::SET_SPAWN_POSITION, login::set_spawn_position_payload()),
        packet_bytes(packet_id::SET_TIME, be_i32(6000)),
        packet_bytes(packet_id::SET_DIFFICULTY, login::vu(1)),
        packet_bytes(packet_id::SET_PLAYER_GAME_TYPE, vi32(1)),
        packet_bytes(
            packet_id::NETWORK_CHUNK_PUBLISHER_UPDATE,
            crate::chunk::publisher_update_payload((0, 70, 0), (s.view_distance * 16) as u32),
        ),
        packet_bytes(
            packet_id::PLAYER_LIST,
            login::player_list_add_payload(""@, s.username@, s.entity_id),
        ),
        packet_bytes(packet_id::CHUNK_RADIUS_UPDATED, vi32(s.view_distance as i32)),
        packet_bytes(packet_id::PLAY_STATUS, be_i32(login::PLAY_STATUS_PLAYER_SPAWN)),
    ]
}


proof fn lemma_find_sub_first(h: Seq<u8>, n: Seq<u8>, i: int)
    requires
        0 <= i,
        i + n.len() <= h.len(),
        h.subrange(i, i + n.len()) == n,
        forall|j: int| 0 <= j < i ==> #[trigger] h.subrange(j, j + n.len()) != n,
    ensures
        find_sub(h, n) == Some(i),
    decreases i,
{
    if i > 0 {
        assert(h.subrange(0, 0int + n.len()) != n);
        assert(h.subrange(0, n.len() as int) != n);
        let t = h.drop_first();
        assert forall|j: int| 0 <= j < i - 1 implies #[trigger] t.subrange(j, j + n.len()) != n by {
            assert(t.subrange(j, j + n.len()) =~= h.subrange(j + 1, j + 1 + n.len()));
        }
        assert(t.subrange(i - 1, i - 1 + n.len()) =~= h.subrange(i, i + n.len()));
        lemma_find_sub_first(t, n, i - 1);
    }
}

proof fn lemma_find_sub_none(h: Seq<u8>, n: Seq<u8>)
    requires
        n.len() > 0,
        forall|j: int| 0 <= j && j + n.len() <= h.len() ==> #[trigger] h.subrange(j, j + n.len()) != n,
    ensures
        find_sub(h, n) is None,
    decreases h.len(),
{
    if h.len() >= n.len() {
        assert(h.subrange(0, 0int + n.len()) != n);
        assert(h.subrange(0, n.len() as int) != n);
        let t = h.drop_first();
        assert forall|j: int| 0 <= j && j + n.len() <= t.len() implies #[trigger] t.subrange(
            j,
            j + n.len(),
        ) != n by {
            assert(t.subrange(j, j + n.len()) =~= h.subrange(j + 1, j + 1 + n.len()));
        }
        lemma_find_sub_none(t, n);
    }
}

/// The first position at which `needle` occurs in `haystack`.
fn find_subslice(haystack: &[u8], needle: &[u8]) -> (r: Option<usize>)
    requires
        needle@.len() > 0,
    ensures
        match r {
            Some(i) => find_sub(haystack@, needle@) == Some(i as int),
            None => find_sub(haystack@, needle@) is None,
        },
{
    let n = needle.len();
    let len = haystack.len();
    if len < n {
        proof {
            lemma_find_sub_none(haystack@, needle@);
        }
        return None;
    }
    let mut i: usize = 0;
    while i <= len - n
        invariant
            n == needle@.len(),
            n > 0,
            len == haystack@.len(),
            n <= len,
            i <= len,
            forall|j: int| 0 <= j < i ==> #[trigger] haystack@.subrange(j, j + n) != needle@,
        decreases len - i,
    {
        let mut k: usize = 0;
        let mut same = true;
        while k < n
            invariant
                n == needle@.len(),
                len == haystack@.len(),
                i + n <= len,
                k <= n,
                same == (forall|m: int| 0 <= m < k ==> haystack@[i + m] == needle@[m]),
            decreases n - k,
        {
            if haystack[i + k] != needle[k] {
                same = false;
            }
            k = k + 1;
        }
        if same {
            assert(haystack@.subrange(i as int, i + n) =~= needle@);
            proof {
                lemma_find_sub_first(haystack@, needle@, i as int);
            }
            return Some(i);
        }
        assert(haystack@.subrange(i as int, i + n)[0] == haystack@[i as int]);
        assert(haystack@.subrange(i as int, i + n) != needle@) by {
            if haystack@.subrange(i as int, i + n) == needle@ {
                assert forall|m: int| 0 <= m < n implies haystack@[i + m] == needle@[m] by {
                    assert(haystack@.subrange(i as int, i + n)[m] == haystack@[i + m]);
                }
            }
        }
        i = i + 1;
    }
    proof {
        lemma_find_sub_none(haystack@, needle@);
    }
    None
}

proof fn lemma_find_byte(s: Seq<u8>, b: u8)
    ensures
        find_byte(s, b) matches Some(i) ==> 0 <= i < s.len() && s[i] == b && forall|j: int|
            0 <= j < i ==> s[j] != b,
        find_byte(s, b) is None ==> forall|j: int| 0 <= j < s.len() ==> s[j] != b,
    decreases s.len(),
{
    if s.len() > 0 {
        let t = s.drop_first();
        lemma_find_byte(t, b);
        if s[0] != b {
            assert forall|j: int| 1 <= j < s.len() implies s[j] == t[j - 1] by {}
            if find_byte(t, b) is Some {
                let k = find_byte(t, b)->0;
                assert forall|j: int| 0 <= j < k + 1 implies s[j] != b by {
                    if j > 0 {
                        assert(s[j] == t[j - 1]);
                    }
                }
            }
        }
    }
}

/// The first position of `b` in `s`.
fn position_of(s: &[u8], b: u8) -> (r: Option<usize>)
    ensures
        match r {
            Some(i) => find_byte(s@, b) == Some(i as int),
            None => find_byte(s@, b) is None,
        },
{
    proof {
        lemma_find_byte(s@, b);
    }
    let mut i: usize = 0;
    while i < s.len()
        invariant
            i <= s@.len(),
            forall|j: int| 0 <= j < i ==> s@[j] != b,
            find_byte(s@, b) matches Some(k) ==> 0 <= k < s@.len() && s@[k] == b && forall|j: int|
                0 <= j < k ==> s@[j] != b,
            find_byte(s@, b) is None ==> forall|j: int| 0 <= j < s@.len() ==> s@[j] != b,
        decreases s@.len() - i,
    {
        if s[i] == b {
            return Some(i);
        }
        i = i + 1;
    }
    None
}

/// Best-effort offline-mode username: the quoted text after the first
/// "displayName" in the Login body (see `offline_username`).
pub fn extract_offline_username(body: &[u8]) -> (r: Option<String>)
    ensures
        match r {
            Some(s) => offline_username(body@) == Some(s@),
            None => offline_username(body@) is None,
        },
{
    let key: [u8; 11] = [0x64, 0x69, 0x73, 0x70, 0x6c, 0x61, 0x79, 0x4e, 0x61, 0x6d, 0x65];
    let key_s = key.as_slice();
    assert(key_s@ =~= display_name_key());
    let idx = match find_subslice(body, key_s) {
        Some(i) => i,
        None => {
            return None;
        },
    };
    proof {
        lemma_find_sub_bound(body@, display_name_key());
        assert(find_sub(body@, display_name_key()) == Some(idx as int));
        assert(display_name_key().len() == 11);
        assert(idx + 11 <= body@.len());
    }
    let blen = body.len();
    let rest = &body[idx + 11..blen];
    assert(rest@ == body@.subrange(idx + 11, body@.len() as int));
    let start = match position_of(rest, 0x22) {
        Some(i) => i,
        None => {
            return None;
        },
    };
    proof {
        lemma_find_byte(rest@, 0x22);
    }
    let after = &rest[start + 1..rest.len()];
    assert(after@ == rest@.subrange(start + 1, rest@.len() as int));
    let end = match position_of(after, 0x22) {
        Some(i) => i,
        None => {
            return None;
        },
    };
    proof {
        lemma_find_byte(after@, 0x22);
    }
    let name = &after[0..end];
    assert(name@ == after@.subrange(0, end as int));
    if name.len() == 0 {
        return None;
    }
    match utf8_string(vstd::slice::slice_to_vec(name)) {
        Ok(s) => Some(s),
        Err(_) => None,
    }
}

proof fn lemma_find_sub_bound(h: Seq<u8>, n: Seq<u8>)
    ensures
        find_sub(h, n) matches Some(i) ==> 0 <= i && i + n.len() <= h.len(),
    decreases h.len(),
{
    if h.len() >= n.len() && h.subrange(0, n.len() as int) != n && h.len() > 0 {
        lemma_find_sub_bound(h.drop_first(), n);
    }
}

/// Parse a MovePlayer body (see `parse_move_spec`).
pub fn parse_move_player(body: &[u8]) -> (r: Option<Position>)
    ensures
        r == parse_move_spec(body@),
{
    if body.len() < 49 {
        return None;
    }
    let mut pos: usize = 0;
    proof {
        crate::varint::lemma_var_decode_bound(body@, 0, 5);
        crate::varint::lemma_var_decode_within(body@, 0, 5);
    }
    match read_var_i32(body, &mut pos) {
        Ok(_) => {},
        Err(_) => {
            return None;
        },
    }
    let x = read_le(body, pos, 4) as u32;
    let y = read_le(body, pos + 4, 4) as u32;
    let z = read_le(body, pos + 8, 4) as u32;
    let pitch = read_le(body, pos + 12, 4) as u32;
    let yaw = read_le(body, pos + 16, 4) as u32;
    Some(Position { x, y, z, yaw, pitch, on_ground: false })
}


/// The fields other than the queue, the state, the view distance and the
/// position are unchanged.
pub open spec fn keeps(s1: Session, s2: Session) -> bool {
    &&& s2.username == s1.username
    &&& s2.entity_id == s1.entity_id
    &&& s2.runtime_id == s1.runtime_id
}

/// Nothing changes but the queue.
pub open spec fn only_queue(s1: Session, s2: Session) -> bool {
    &&& keeps(s1, s2)
    &&& s2.state == s1.state
    &&& s2.view_distance == s1.view_distance
    &&& s2.position == s1.position
}

/// The NetworkSettings packet (no compression).
pub open spec fn network_settings_packet() -> Seq<u8> {
    packet_bytes(packet_id::NETWORK_SETTINGS, login::network_settings_payload(0))
}

/// The StartGame packet of a (re)spawn at (0, 70, 0) in creative.
pub open spec fn start_game_packet(s: Session) -> Seq<u8> {
    packet_bytes(
        packet_id::START_GAME,
        start_game_payload(s.entity_id, s.runtime_id, 1, spawn_bits(), 0, "world"@),
    )
}

/// What a packet does to a spawned session.
pub open spec fn spawned_step(s1: Session, s2: Session, pid: u8, body: Seq<u8>, r: bool) -> bool {
    if pid == packet_id::MOVE_PLAYER {
        &&& keeps(s1, s2)
        &&& s2.state == s1.state
        &&& s2.view_distance == s1.view_distance
        &&& s2.position == (match parse_move_spec(body) {
            Some(p) => p,
            None => s1.position,
        })
        &&& sent(s1, s2, Seq::empty())
        &&& !r
    } else if pid == packet_id::REQUEST_CHUNK_RADIUS {
        let vd = match var_i32_at(body, 0).0 {
            Some(v) => clamp_radius(v),
            None => s1.view_distance,
        };
        &&& keeps(s1, s2)
        &&& s2.state == s1.state
        &&& s2.position == s1.position
        &&& s2.view_distance == vd
        &&& sent(s1, s2, seq![packet_bytes(packet_id::CHUNK_RADIUS_UPDATED, vi32(vd as i32))])
        &&& !r
    } else if pid == packet_id::RESPAWN {
        &&& keeps(s1, s2)
        &&& s2.state == s1.state
        &&& s2.view_distance == s1.view_distance
        &&& s2.position == default_position()
        &&& sent(s1, s2, seq![start_game_packet(s1), packet_bytes(packet_id::SET_TIME, be_i32(6000))])
        &&& r
    } else {
        &&& only_queue(s1, s2)
        &&& sent(s1, s2, Seq::empty())
        &&& !r
    }
}

/// What a packet does to a session, and whether chunks should be sent
/// after it.
pub open spec fn session_step(s1: Session, s2: Session, pid: u8, body: Seq<u8>, r: bool) -> bool {
    if s1.state == SessionState::WaitSettings && pid == packet_id::REQUEST_NETWORK_SETTINGS {
        &&& keeps(s1, s2)
        &&& s2.view_distance == s1.view_distance
        &&& s2.position == s1.position
        &&& s2.state == SessionState::WaitLogin
        &&& sent(s1, s2, seq![network_settings_packet()])
        &&& !r
    } else if s1.state == SessionState::WaitLogin && pid == packet_id::LOGIN {
        let proto = be_value(body.subrange(0, 4));
        if body.len() >= 4 && proto != 1001 {
            &&& keeps(s1, s2)
            &&& s2.view_distance == s1.view_distance
            &&& s2.position == s1.position
            &&& s2.state == SessionState::Closed
            &&& sent(s1, s2, seq![protocol_refusal(proto as u32)])
            &&& !r
        } else {
            let name = match offline_username(body) {
                Some(n) => n,
                None => default_username(s1.entity_id),
            };
            &&& s2.username@ == name
            &&& s2.entity_id == s1.entity_id
            &&& s2.runtime_id == s1.runtime_id
            &&& s2.view_distance == s1.view_distance
            &&& s2.position == s1.position
            &&& s2.state == SessionState::WaitResourcePacks
            &&& sent(
                s1,
                s2,
                seq![
                    packet_bytes(packet_id::PLAY_STATUS, be_i32(login::PLAY_STATUS_LOGIN_SUCCESS)),
                    packet_bytes(packet_id::RESOURCE_PACKS_INFO, login::resource_packs_info_payload()),
                ],
            )
            &&& !r
        }
    } else if s1.state == SessionState::WaitResourcePacks && pid
        == packet_id::RESOURCE_PACK_CLIENT_RESPONSE {
        &&& keeps(s1, s2)
        &&& s2.view_distance == s1.view_distance
        &&& s2.position == default_position()
        &&& s2.state == SessionState::Spawned
        &&& sent(s1, s2, spawn_packets(s1))
        &&& r
    } else if s1.state == SessionState::Spawned {
        spawned_step(s1, s2, pid, body, r)
    } else {
        &&& only_queue(s1, s2)
        &&& sent(s1, s2, Seq::empty())
        &&& !r
    }
}

/// The order of the states: a session only moves forward.
pub open spec fn state_rank(st: SessionState) -> int {
    match st {
        SessionState::WaitSettings => 0,
        SessionState::WaitLogin => 1,
        SessionState::WaitResourcePacks => 2,
        SessionState::Spawned => 3,
        SessionState::Closed => 4,
    }
}

/// A packet never moves a session back: its state only advances, a
/// spawned session stays spawned and a closed one stays closed; chunks
/// are asked for only by a session that is spawned afterwards.
pub proof fn law_session_progress(s1: Session, s2: Session, pid: u8, body: Seq<u8>, r: bool)
    requires
        session_step(s1, s2, pid, body, r),
    ensures
        state_rank(s2.state) >= state_rank(s1.state),
        s1.state == SessionState::Spawned ==> s2.state == SessionState::Spawned,
        s1.state == SessionState::Closed ==> s2.state == SessionState::Closed,
        r ==> s2.state == SessionState::Spawned,
{
}

/// The entity id of a new connection: one more than the number of
/// sessions open before it.
pub fn entity_id_for(session_count: usize) -> (r: i64)
    requires
        session_count < i64::MAX,
    ensures
        r == session_count + 1,
{
    session_count as i64 + 1
}

impl Session {
    pub fn new(entity_id: i64) -> (r: Self)
        ensures
            r.username@ == Seq::<char>::empty(),
            r.entity_id == entity_id,
            r.runtime_id == entity_id as u64,
            r.state == SessionState::WaitSettings,
            r.view_distance == 4,
            r.position == default_position(),
            r.queue@ == Seq::<Outbound>::empty(),
    {
        Session {
            username: String::new(),
            entity_id,
            runtime_id: entity_id as u64,
            state: SessionState::WaitSettings,
            view_distance: 4,
            position: Position::default(),
            queue: Vec::new(),
        }
    }

    /// Queue a packet for reliable ordered send on channel 0.
    fn send_packet(&mut self, packet: Vec<u8>)
        ensures
            only_queue(*old(self), *final(self)),
            sent(*old(self), *final(self), seq![packet@]),
    {
        let ghost q0 = self.queue@;
        self.queue.push(Outbound { data: packet, reliability: Reliability::ReliableOrdered, order_channel: 0 });
        assert(queued_data(self.queue@) =~= queued_data(q0) + seq![packet@]);
    }

    /// Take all queued packets, oldest first.
    pub fn collect_responses(&mut self) -> (r: Vec<Vec<u8>>)
        ensures
            only_queue(*old(self), *final(self)),
            final(self).queue@ == Seq::<Outbound>::empty(),
            Seq::new(r@.len(), |i: int| r@[i]@) == queued_data(old(self).queue@),
    {
        let mut q: Vec<Outbound> = Vec::new();
        std::mem::swap(&mut q, &mut self.queue);
        let mut out: Vec<Vec<u8>> = Vec::new();
        let ghost all = q@;
        let n = q.len();
        let mut i: usize = 0;
        while i < n
            invariant
                n == all.len(),
                i <= n,
                q@ == all.subrange(i as int, n as int),
                out@.len() == i,
                Seq::new(out@.len(), |k: int| out@[k]@) == queued_data(all).take(i as int),
            decreases n - i,
        {
            let o = q.remove(0);
            assert(o == all[i as int]);
            let ghost prev = out@;
            out.push(o.data);
            assert(out@ == prev.push(o.data));
            assert forall|k: int| 0 <= k < i implies out@[k]@ == queued_data(all)[k] by {
                assert(out@[k] == prev[k]);
                assert(Seq::new(prev.len(), |m: int| prev[m]@)[k] == queued_data(all).take(i as int)[k]);
            }
            assert(q@ =~= all.subrange(i + 1, n as int));
            assert(Seq::new(out@.len(), |k: int| out@[k]@) =~= queued_data(all).take(i + 1));
            i = i + 1;
        }
        assert(queued_data(all).take(n as int) =~= queued_data(all));
        out
    }

    /// Feed a decoded game packet (its id and body) to the session state
    /// machine; returns true when chunks should be sent after it.
    pub fn on_packet(&mut self, pid: u8, body: &[u8]) -> (r: bool)
        requires
            old(self).state == SessionState::WaitResourcePacks && pid
                == packet_id::RESOURCE_PACK_CLIENT_RESPONSE ==> old(self).view_distance * 16
                <= u32::MAX,
        ensures
            session_step(*old(self), *final(self), pid, body@, r),
    {
        match self.state {
            SessionState::WaitSettings => {
                if pid == packet_id::REQUEST_NETWORK_SETTINGS {
                    self.send_packet(login::network_settings(0));
                    self.state = SessionState::WaitLogin;
                    return false;
                }
            },
            SessionState::WaitLogin => {
                if pid == packet_id::LOGIN {
                    self.on_login(body);
                    return false;
                }
            },
            SessionState::WaitResourcePacks => {
                if pid == packet_id::RESOURCE_PACK_CLIENT_RESPONSE {
                    self.spawn();
                    return true;
                }
            },
            SessionState::Spawned => {
                return self.handle_spawned_packet(pid, body);
            },
            SessionState::Closed => {},
        }
        assert(queued_data(self.queue@) =~= queued_data(old(self).queue@) + Seq::empty());
        false
    }

    fn on_login(&mut self, body: &[u8])
        requires
            old(self).state == SessionState::WaitLogin,
        ensures
            session_step(*old(self), *final(self), packet_id::LOGIN, body@, false),
    {
        if body.len() >= 4 {
            proof {
                crate::bytes::lemma_be_value_bytes(body@.subrange(0, 4));
                reveal_with_fuel(vstd::arithmetic::power::pow, 5);
            }
            let proto = read_be(body, 0, 4) as u32;
            assert(proto as nat == be_value(body@.subrange(0, 4)));
            if proto != crate::packet_id::SUPPORTED_PROTOCOL_VERSION {
                let mut msg = owned("Unsupported protocol ");
                push_digits(&mut msg, proto as u64);
                push_str(&mut msg, ", expected 1001");
                self.send_packet(login::disconnect(msg.as_str()));
                self.state = SessionState::Closed;
                return;
            }
        }
        let name = match extract_offline_username(body) {
            Some(n) => n,
            None => {
                let mut n = owned("Player");
                push_decimal(&mut n, self.entity_id);
                n
            },
        };
        self.username = name;
        let ghost mid = *self;
        self.send_packet(login::play_status(login::PLAY_STATUS_LOGIN_SUCCESS));
        self.send_packet(login::resource_packs_info());
        self.state = SessionState::WaitResourcePacks;
        assert(queued_data(self.queue@) =~= queued_data(old(self).queue@) + seq![
            packet_bytes(packet_id::PLAY_STATUS, be_i32(login::PLAY_STATUS_LOGIN_SUCCESS)),
            packet_bytes(packet_id::RESOURCE_PACKS_INFO, login::resource_packs_info_payload()),
        ]);
    }

    fn spawn(&mut self)
        requires
            old(self).view_distance * 16 <= u32::MAX,
        ensures
            keeps(*old(self), *final(self)),
            final(self).view_distance == old(self).view_distance,
            final(self).position == default_position(),
            final(self).state == SessionState::Spawned,
            sent(*old(self), *final(self), spawn_packets(*old(self))),
    {
        let ghost s0 = *self;
        self.send_packet(login::play_status(login::PLAY_STATUS_SPAWN));
        self.send_packet(login::resource_pack_stack());
        self.send_packet(login::biome_definition_list());
        self.position = Position { x: 0, y: SPAWN_Y_BITS, z: 0, yaw: 0, pitch: 0, on_ground: true };
        let ghost s1 = *self;
        assert(queued_data(s1.queue@) =~= queued_data(s0.queue@) + spawn_packets(s0).take(3));
        self.send_packet(login::start_game(self.entity_id, self.runtime_id, 1, (0, SPAWN_Y_BITS, 0), 0, "world"));
        self.send_packet(login::set_spawn_position());
        self.send_packet(login::set_time(6000));
        self.send_packet(login::set_difficulty(1));
        self.send_packet(login::set_player_game_type(1));
        let ghost s2 = *self;
        assert(queued_data(s2.queue@) =~= queued_data(s0.queue@) + spawn_packets(s0).take(8));
        self.send_packet(login::network_chunk_publisher_update((0, 70, 0), self.view_distance * 16));
        self.send_packet(login::player_list_add("", self.username.as_str(), self.entity_id));
        self.send_packet(login::chunk_radius_updated(self.view_distance as i32));
        self.send_packet(login::play_status_player_spawn());
        self.state = SessionState::Spawned;
        assert(queued_data(self.queue@) =~= queued_data(s0.queue@) + spawn_packets(s0));
    }

    /// Handle packets while in the spawned state.
    fn handle_spawned_packet(&mut self, pid: u8, body: &[u8]) -> (r: bool)
        requires
            old(self).state == SessionState::Spawned,
        ensures
            spawned_step(*old(self), *final(self), pid, body@, r),
    {
        if pid == packet_id::MOVE_PLAYER {
            match parse_move_player(body) {
                Some(pos) => {
                    self.position = pos;
                },
                None => {},
            }
            assert(queued_data(self.queue@) =~= queued_data(old(self).queue@) + Seq::empty());
            false
        } else if pid == packet_id::REQUEST_CHUNK_RADIUS {
            let mut pos: usize = 0;
            match read_var_i32(body, &mut pos) {
                Ok(radius) => {
                    let clamped = if radius < 2 { 2 } else if radius > 32 { 32 } else { radius };
                    self.view_distance = clamped as u32;
                },
                Err(_) => {},
            }
            self.send_packet(login::chunk_radius_updated(self.view_distance as i32));
            false
        } else if pid == packet_id::RESPAWN {
            self.send_packet(login::start_game(self.entity_id, self.runtime_id, 1, (0, SPAWN_Y_BITS, 0), 0, "world"));
            self.send_packet(login::set_time(6000));
            self.position = Position::default();
            assert(queued_data(self.queue@) =~= queued_data(old(self).queue@) + seq![
                start_game_packet(*old(self)),
                packet_bytes(packet_id::SET_TIME, be_i32(6000)),
            ]);
            true
        } else {
            assert(queued_data(self.queue@) =~= queued_data(old(self).queue@) + Seq::empty());
            false
        }
    }
}

/// A MovePlayer body of at least 49 bytes that starts with a VarInt of
/// `n` bytes gives the position whose x, y, z, pitch and yaw are the
/// little-endian 32-bit values at body offsets `n`, `n + 4`, `n + 8`,
/// `n + 12` and `n + 16`, in that order, not on the ground; a shorter
/// body, or one without that VarInt, gives none.
pub proof fn law_move_player_fields(body: Seq<u8>)
    ensures
        ({
            let id = var_i32_at(body, 0).0;
            let n = var_i32_at(body, 0).1 as int;
            if body.len() < 49 || id is None {
                parse_move_spec(body) is None
            } else {
                parse_move_spec(body) == Some(Position {
                    x: le_value(body.subrange(n, n + 4)) as u32,
                    y: le_value(body.subrange(n + 4, n + 8)) as u32,
                    z: le_value(body.subrange(n + 8, n + 12)) as u32,
                    pitch: le_value(body.subrange(n + 12, n + 16)) as u32,
                    yaw: le_value(body.subrange(n + 16, n + 20)) as u32,
                    on_ground: false,
                })
            }
        }),
{
}

/// A spawned session that is asked for a chunk radius takes it as its view
/// distance when it lies from 2 to 32, else 2 (below) or 32 (above), and
/// answers with one ChunkRadiusUpdated packet carrying that distance.
pub proof fn law_chunk_radius(s1: Session, s2: Session, body: Seq<u8>, r: bool, radius: i32)
    requires
        spawned_step(s1, s2, packet_id::REQUEST_CHUNK_RADIUS, body, r),
        var_i32_at(body, 0).0 == Some(radius),
    ensures
        s2.view_distance as int == (if radius < 2 {
            2
        } else if radius > 32 {
            32
        } else {
            radius as int
        }),
        2 <= radius <= 32 ==> s2.view_distance == radius as u32,
        queued_data(s2.queue@) == queued_data(s1.queue@) + seq![
            packet_bytes(packet_id::CHUNK_RADIUS_UPDATED, vi32(s2.view_distance as i32)),
        ],
{
}

} // verus!
