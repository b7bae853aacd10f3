use std::collections::HashMap;
use vstd::prelude::*;
use crate::codec::{
    split_frames, decode_preamble, encode_frame, encode_preamble, framed, parse_preamble, preamble_bytes, Preamble,
    PreambleView, MAX_FRAME_LEN,
};
use crate::connection::{Connection, ConnectionKind};
use crate::table::{
    slab_contains, slab_contents, slab_get, slab_get_mut, slab_insert, slab_len, slab_new,
    slab_try_remove,
};
use crate::timers::{ConsensusTimeout, ServerTimeout, Timer, TimerWheel};

verus! {

broadcast use vstd::std_specs::hash::group_hash_axioms;

/// Why an operation of the server failed.
#[derive(Clone, Copy, Debug, PartialEq, Eq, Structural)]
pub enum RaftError {
    /// The local id appears among the peers, or a peer id appears twice.
    InvalidPeerSet,
    /// The connection table is full.
    ConnectionLimitReached,
    /// The readiness source refused to arm a connection.
    ConnectionRegisterFailed,
    /// The first message of a connection is no preamble.
    UnknownConnectionType,
    /// A server preamble names a server that is not a configured peer.
    UnknownPeer,
    /// A client preamble names a client that is already connected.
    DuplicateClient,
    /// The inbound bytes are not a well-formed frame.
    MalformedFrame,
}

/// What an inbound message calls for, once the server has taken its part.
#[derive(Debug)]
pub enum Delivery {
    /// A message from a peer, for consensus.
    Peer { id: u64, message: Vec<u8> },
    /// A message from a client, for consensus.
    Client { id: u128, message: Vec<u8> },
    /// A peer announced itself on an accepted connection, which now stands for
    /// it; the connection under `replaced` left the table and its socket is to
    /// be closed. Consensus learns the peer's address.
    PeerConnected { id: u64, addr: Vec<u8>, replaced: usize },
    /// A client announced itself.
    ClientConnected { id: u128 },
}

/// What consensus asks for after an event, carried out in this order: drop
/// every peer's queue, send the peer messages, send the client messages, clear
/// every consensus timer, arm the listed timers.
#[derive(Debug)]
pub struct Actions {
    pub peer_messages: Vec<(u64, Vec<u8>)>,
    pub client_messages: Vec<(u128, Vec<u8>)>,
    pub timeouts: Vec<ConsensusTimeout>,
    pub clear_timeouts: bool,
    pub clear_peer_messages: bool,
}

impl Actions {
    /// Nothing to do.
    pub fn new() -> (r: Actions)
        ensures
            r.is_empty(),
    {
        Actions {
            peer_messages: Vec::new(),
            client_messages: Vec::new(),
            timeouts: Vec::new(),
            clear_timeouts: false,
            clear_peer_messages: false,
        }
    }

    /// No message, no timer and no flag.
    pub open spec fn is_empty(&self) -> bool {
        &&& self.peer_messages@.len() == 0
        &&& self.client_messages@.len() == 0
        &&& self.timeouts@.len() == 0
        &&& !self.clear_timeouts
        &&& !self.clear_peer_messages
    }
}

/// The frames, in order, of the messages of `msgs` addressed to peer `p`.
pub open spec fn peer_frames(msgs: Seq<(u64, Vec<u8>)>, p: u64) -> Seq<Seq<u8>>
    decreases msgs.len(),
{
    if msgs.len() == 0 {
        Seq::empty()
    } else {
        let rest = peer_frames(msgs.drop_last(), p);
        if msgs.last().0 == p {
            rest.push(framed(msgs.last().1@))
        } else {
            rest
        }
    }
}

/// The frames, in order, of the messages of `msgs` addressed to client `c`.
pub open spec fn client_frames(msgs: Seq<(u128, Vec<u8>)>, c: u128) -> Seq<Seq<u8>>
    decreases msgs.len(),
{
    if msgs.len() == 0 {
        Seq::empty()
    } else {
        let rest = client_frames(msgs.drop_last(), c);
        if msgs.last().0 == c {
            rest.push(framed(msgs.last().1@))
        } else {
            rest
        }
    }
}

/// The frames that a connection of kind `kind` gets from these messages.
pub open spec fn frames_for(
    kind: ConnectionKind,
    peer_msgs: Seq<(u64, Vec<u8>)>,
    client_msgs: Seq<(u128, Vec<u8>)>,
) -> Seq<Seq<u8>> {
    match kind {
        ConnectionKind::Peer(p) => peer_frames(peer_msgs, p),
        ConnectionKind::Client(c) => client_frames(client_msgs, c),
        ConnectionKind::Unknown => Seq::empty(),
    }
}

/// What a fired timer calls for.
#[derive(Debug)]
pub enum Fired {
    /// A consensus deadline passed; consensus is to be told.
    Consensus(ConsensusTimeout),
    /// The back-off of peer `id` ended: its connection, under `token`, is to be
    /// dialled again at `addr`. Once the dial is under way consensus is told
    /// that the peer's connection was reset; if it fails the connection is
    /// reset again.
    Reconnect { token: usize, id: u64, addr: Vec<u8> },
}

/// Longest listening address, in text form, that a server announces; the text
/// form of a socket address is shorter.
pub const MAX_ADDR_LEN: usize = 64;

/// The frame that a server sends first on a connection it dialled.
pub open spec fn server_preamble_frame(id: u64, addr: Seq<u8>) -> Seq<u8> {
    framed(preamble_bytes(PreambleView::Server { id, addr }))
}

/// How long the back-off of a peer connection lasts.
pub const RECONNECT_DELAY_MILLIS: u64 = 100;

/// The durations from which consensus deadlines are computed.
#[derive(Clone, Copy, Debug, PartialEq, Eq, Structural)]
pub struct TimeoutConfiguration {
    pub election_min_ms: u64,
    pub election_max_ms: u64,
    pub heartbeat_ms: u64,
}

impl TimeoutConfiguration {
    /// The duration of a timer of kind `kind`: a heartbeat lasts exactly the
    /// heartbeat period; an election lasts between the minimum and the maximum,
    /// picked by `sample` (a uniform sample gives a uniform duration), or the
    /// minimum where the maximum is not above it.
    pub open spec fn duration_spec(&self, kind: ConsensusTimeout, sample: u64) -> u64 {
        match kind {
            ConsensusTimeout::Heartbeat(_) => self.heartbeat_ms,
            ConsensusTimeout::Election => if self.election_max_ms <= self.election_min_ms {
                self.election_min_ms
            } else {
                (self.election_min_ms + (sample as int) % (self.election_max_ms
                    - self.election_min_ms + 1)) as u64
            },
        }
    }

    pub fn duration_ms(&self, kind: ConsensusTimeout, sample: u64) -> (r: u64)
        ensures
            r == self.duration_spec(kind, sample),
    {
        match kind {
            ConsensusTimeout::Heartbeat(_) => self.heartbeat_ms,
            ConsensusTimeout::Election => {
                if self.election_max_ms <= self.election_min_ms {
                    self.election_min_ms
                } else {
                    let span = self.election_max_ms - self.election_min_ms;
                    if span == u64::MAX {
                        proof {
                            vstd::arithmetic::div_mod::lemma_small_mod(
                                sample as nat,
                                span as nat + 1,
                            );
                        }
                        sample
                    } else {
                        self.election_min_ms + sample % (span + 1)
                    }
                }
            },
        }
    }
}

/// `now + delay`, or the largest instant where that is past it.
pub open spec fn deadline_after(now: u64, delay: u64) -> u64 {
    if now + delay <= u64::MAX {
        (now + delay) as u64
    } else {
        u64::MAX
    }
}

fn add_delay(now: u64, delay: u64) -> (r: u64)
    ensures
        r == deadline_after(now, delay),
{
    if delay <= u64::MAX - now {
        now + delay
    } else {
        u64::MAX
    }
}

/// The coordination state of a Raft node: its connections, the peer and client
/// indexes over them, its timers and the indexes over those.
pub struct Server {
    id: u64,
    addr: Vec<u8>,
    config: TimeoutConfiguration,
    max_connections: usize,
    peer_ids: Vec<u64>,
    connections: slab::Slab<Connection>,
    peer_tokens: HashMap<u64, usize>,
    client_tokens: HashMap<u128, usize>,
    consensus_timeouts: Vec<(ConsensusTimeout, usize)>,
    reconnection_timeouts: HashMap<usize, usize>,
    timers: TimerWheel,
    now: u64,
    sample: u64,
}

impl Server {
    /// The id of this server.
    pub closed spec fn self_id(&self) -> u64 {
        self.id
    }

    /// The address this server listens on, in text form.
    pub closed spec fn listen_addr(&self) -> Seq<u8> {
        self.addr@
    }

    /// The timeout configuration.
    pub closed spec fn timeout_config(&self) -> TimeoutConfiguration {
        self.config
    }

    /// The most connections the table holds.
    pub closed spec fn capacity(&self) -> usize {
        self.max_connections
    }

    /// The configured peers, in configuration order.
    pub closed spec fn peer_list(&self) -> Seq<u64> {
        self.peer_ids@
    }

    /// The connections, by handle.
    pub closed spec fn conns(&self) -> Map<usize, Connection> {
        slab_contents(self.connections)
    }

    /// The handle of each peer's connection.
    pub closed spec fn peer_index(&self) -> Map<u64, usize> {
        self.peer_tokens@
    }

    /// The handle of each connected client's connection.
    pub closed spec fn client_index(&self) -> Map<u128, usize> {
        self.client_tokens@
    }

    /// The peer connections in back-off, with the handle of their timer.
    pub closed spec fn reconnecting(&self) -> Map<usize, usize> {
        self.reconnection_timeouts@
    }

    /// The live consensus timers, with their handles.
    pub closed spec fn consensus_timers(&self) -> Seq<(ConsensusTimeout, usize)> {
        self.consensus_timeouts@
    }

    /// The live timers, by handle.
    pub closed spec fn timers(&self) -> Map<usize, Timer> {
        self.timers@
    }

    /// The current instant, in milliseconds.
    pub closed spec fn clock(&self) -> u64 {
        self.now
    }

    /// The sample from which election durations are drawn.
    pub closed spec fn clock_sample(&self) -> u64 {
        self.sample
    }

    /// Whether a consensus timer of this kind is live.
    pub open spec fn has_consensus_timer(&self, kind: ConsensusTimeout) -> bool {
        exists|i: int| 0 <= i < self.consensus_timers().len() && #[trigger] self.consensus_timers()[i].0 == kind
    }

    /// Whether the peer's connection is up: not in back-off.
    pub open spec fn peer_is_connected(&self, p: u64) -> bool {
        self.peer_index().contains_key(p) && !self.reconnecting().contains_key(self.peer_index()[p])
    }

    /// The invariant of the server.
    pub closed spec fn wf(&self) -> bool {
        let conns = self.conns();
        let peers = self.peer_tokens@;
        let clients = self.client_tokens@;
        let rt = self.reconnection_timeouts@;
        let ct = self.consensus_timeouts@;
        let timers = self.timers@;
        &&& self.addr@.len() <= MAX_ADDR_LEN
        &&& self.peer_ids@.no_duplicates()
        &&& !self.peer_ids@.contains(self.id)
        &&& forall|p: u64| #[trigger] peers.contains_key(p) <==> self.peer_ids@.contains(p)
        &&& forall|p: u64| #[trigger]
            peers.contains_key(p) ==> conns.contains_key(peers[p]) && conns[peers[p]].kind
                == ConnectionKind::Peer(p)
        &&& forall|c: u128| #[trigger]
            clients.contains_key(c) ==> conns.contains_key(clients[c]) && conns[clients[c]].kind
                == ConnectionKind::Client(c)
        &&& forall|t: usize| #[trigger]
            conns.contains_key(t) ==> {
                &&& conns[t].wf()
                &&& conns[t].kind matches ConnectionKind::Peer(p) ==> peers.contains_key(p)
                    && peers[p] == t
                &&& conns[t].kind matches ConnectionKind::Client(c) ==> clients.contains_key(c)
                    && clients[c] == t
            }
        &&& forall|t: usize| #[trigger]
            rt.contains_key(t) ==> {
                &&& conns.contains_key(t)
                &&& conns[t].kind is Peer
                &&& timers.contains_key(rt[t])
                &&& timers[rt[t]].payload == ServerTimeout::Reconnect(t)
            }
        &&& forall|h: usize| #[trigger]
            timers.contains_key(h) ==> match timers[h].payload {
                ServerTimeout::Reconnect(t) => rt.contains_key(t) && rt[t] == h,
                ServerTimeout::Consensus(k) => exists|i: int|
                    0 <= i < ct.len() && #[trigger] ct[i] == (k, h),
            }
        &&& forall|i: int| #![trigger ct[i]]
            0 <= i < ct.len() ==> timers.contains_key(ct[i].1) && timers[ct[i].1].payload
                == ServerTimeout::Consensus(ct[i].0)
        &&& forall|i: int, j: int|
            0 <= i < ct.len() && 0 <= j < ct.len() && #[trigger] ct[i].0 == #[trigger] ct[j].0
                ==> i == j
    }

    /// A server with the given peers, none of them dialled yet, no client and
    /// no timer. Fails with `InvalidPeerSet` where `id` is among the peers or a
    /// peer id appears twice, else with `ConnectionLimitReached` where the
    /// peers do not fit in `max_connections`.
    pub fn finalize(
        id: u64,
        addr: Vec<u8>,
        peers: Vec<(u64, Vec<u8>)>,
        election_min_millis: u64,
        election_max_millis: u64,
        heartbeat_millis: u64,
        max_connections: usize,
    ) -> (r: Result<Server, RaftError>)
        requires
            addr@.len() <= MAX_ADDR_LEN,
        ensures
            r is Ok <==> valid_peers(id, peers@) && peers@.len() <= max_connections,
            !valid_peers(id, peers@) <==> r == Err::<Server, RaftError>(RaftError::InvalidPeerSet),
            valid_peers(id, peers@) && peers@.len() > max_connections <==> r == Err::<
                Server,
                RaftError,
            >(RaftError::ConnectionLimitReached),
            r matches Ok(s) ==> {
                &&& s.wf()
                &&& s.self_id() == id
                &&& s.listen_addr() == addr@
                &&& s.timeout_config() == (TimeoutConfiguration {
                    election_min_ms: election_min_millis,
                    election_max_ms: election_max_millis,
                    heartbeat_ms: heartbeat_millis,
                })
                &&& s.capacity() == max_connections
                &&& s.peer_list() == peers@.map_values(|e: (u64, Vec<u8>)| e.0)
                &&& forall|i: int| #![trigger peers@[i]]
                    0 <= i < peers@.len() ==> {
                        &&& s.peer_index().contains_key(peers@[i].0)
                        &&& s.conns()[s.peer_index()[peers@[i].0]].kind == ConnectionKind::Peer(peers@[i].0)
                        &&& s.conns()[s.peer_index()[peers@[i].0]].addr@ == peers@[i].1@
                        &&& s.conns()[s.peer_index()[peers@[i].0]].queue().len() == 0
                    }
                &&& s.conns().len() == peers@.len()
                &&& s.client_index().is_empty()
                &&& s.reconnecting().is_empty()
                &&& s.consensus_timers().len() == 0
                &&& s.timers().is_empty()
            },
    {
        if !check_peers(id, &peers) {
            return Err(RaftError::InvalidPeerSet);
        }
        if peers.len() > max_connections {
            return Err(RaftError::ConnectionLimitReached);
        }
        let config = TimeoutConfiguration {
            election_min_ms: election_min_millis,
            election_max_ms: election_max_millis,
            heartbeat_ms: heartbeat_millis,
        };
        let mut server = Server {
            id,
            addr,
            config,
            max_connections,
            peer_ids: Vec::new(),
            connections: slab_new(),
            peer_tokens: HashMap::new(),
            client_tokens: HashMap::new(),
            consensus_timeouts: Vec::new(),
            reconnection_timeouts: HashMap::new(),
            timers: TimerWheel::new(),
            now: 0,
            sample: 0,
        };
        proof {
            assert(server.peer_ids@ =~= Seq::<u64>::empty());
        }
        let mut i: usize = 0;
        while i < peers.len()
            invariant
                i <= peers@.len(),
                valid_peers(id, peers@),
                server.wf(),
                server.id == id,
                server.addr@ == addr@,
                server.config == config,
                server.max_connections == max_connections,
                server.peer_ids@ == peers@.subrange(0, i as int).map_values(|e: (u64, Vec<u8>)| e.0),
                forall|j: int| #![trigger peers@[j]]
                    0 <= j < i ==> {
                        &&& server.peer_tokens@.contains_key(peers@[j].0)
                        &&& server.conns()[server.peer_tokens@[peers@[j].0]].addr@ == peers@[j].1@
                        &&& server.conns()[server.peer_tokens@[peers@[j].0]].queue().len() == 0
                    },
                server.conns().len() == i,
                server.conns().dom().finite(),
                server.client_tokens@.is_empty(),
                server.reconnection_timeouts@.is_empty(),
                server.consensus_timeouts@.len() == 0,
                server.timers@.is_empty(),
            decreases peers@.len() - i,
        {
            let peer_id = peers[i].0;
            let peer_addr = peers[i].1.clone();
            proof {
                assert(!server.peer_ids@.contains(peer_id)) by {
                    if server.peer_ids@.contains(peer_id) {
                        let k = choose|k: int| 0 <= k < server.peer_ids@.len() && server.peer_ids@[k] == peer_id;
                        assert(peers@[k].0 == peer_id);
                    }
                }
            }
            let conn = Connection::peer(peer_id, peer_addr);
            let ghost before = server.conns();
            let ghost old_ids = server.peer_ids@;
            let token = slab_insert(&mut server.connections, conn);
            server.peer_tokens.insert(peer_id, token);
            server.peer_ids.push(peer_id);
            i = i + 1;
            proof {
                assert(server.peer_ids@ =~= peers@.subrange(0, i as int).map_values(
                    |e: (u64, Vec<u8>)| e.0,
                ));
                assert(!server.peer_ids@.contains(id));
                assert forall|p: u64| #[trigger] server.peer_tokens@.contains_key(p)
                    <==> server.peer_ids@.contains(p) by {
                    assert(server.peer_ids@ == old_ids.push(peer_id));
                    if p == peer_id {
                        assert(server.peer_ids@[i - 1] == p);
                    } else if server.peer_ids@.contains(p) {
                        let k = choose|k: int| 0 <= k < server.peer_ids@.len() && server.peer_ids@[k] == p;
                        assert(old_ids[k] == p);
                    } else if old_ids.contains(p) {
                        let k = choose|k: int| 0 <= k < old_ids.len() && old_ids[k] == p;
                        assert(server.peer_ids@[k] == p);
                    }
                }
                assert forall|t: usize| #[trigger] server.conns().contains_key(t) implies {
                    &&& server.conns()[t].wf()
                    &&& server.conns()[t].kind matches ConnectionKind::Peer(p) ==> server.peer_tokens@.contains_key(p)
                        && server.peer_tokens@[p] == t
                    &&& server.conns()[t].kind matches ConnectionKind::Client(c) ==> server.client_tokens@.contains_key(c)
                        && server.client_tokens@[c] == t
                } by {
                    if t != token {
                        assert(before.contains_key(t));
                    }
                }
            }
        }
        proof {
            assert(peers@.subrange(0, i as int) =~= peers@);
        }
        Ok(server)
    }

    /// The parts that no event changes.
    pub open spec fn same_setup(&self, other: &Server) -> bool {
        &&& self.self_id() == other.self_id()
        &&& self.listen_addr() == other.listen_addr()
        &&& self.timeout_config() == other.timeout_config()
        &&& self.capacity() == other.capacity()
        &&& self.peer_list() == other.peer_list()
        &&& self.clock() == other.clock()
        &&& self.clock_sample() == other.clock_sample()
    }

    /// Nothing observable differs.
    pub open spec fn same_state(&self, other: &Server) -> bool {
        &&& self.same_setup(other)
        &&& self.conns() == other.conns()
        &&& self.peer_index() == other.peer_index()
        &&& self.client_index() == other.client_index()
        &&& self.reconnecting() == other.reconnecting()
        &&& self.consensus_timers() == other.consensus_timers()
        &&& self.timers() == other.timers()
    }

    /// Resets the connection under `token` after a failure. A peer connection
    /// keeps its slot and its place in the peer index, drops its queue and
    /// goes into back-off under a new reconnection timer (any earlier one is
    /// cancelled). A client or unknown connection leaves the table, and a
    /// client the client index. The caller closes the socket.
    pub fn reset_connection(&mut self, token: usize)
        requires
            old(self).wf(),
            old(self).conns().contains_key(token),
        ensures
            final(self).wf(),
            final(self).same_setup(old(self)),
            final(self).peer_index() == old(self).peer_index(),
            final(self).consensus_timers() == old(self).consensus_timers(),
            old(self).conns()[token].kind matches ConnectionKind::Peer(p) ==> !final(self).peer_is_connected(p)
                && final(self).conns()[token].inbound@.len() == 0,
            old(self).conns()[token].kind is Peer ==> {
                &&& final(self).conns().dom() == old(self).conns().dom()
                &&& forall|t: usize| #[trigger]
                    final(self).conns().contains_key(t) && t != token ==> final(self).conns()[t]
                        == old(self).conns()[t]
                &&& final(self).conns()[token].kind == old(self).conns()[token].kind
                &&& final(self).conns()[token].addr == old(self).conns()[token].addr
                &&& final(self).conns()[token].queue().len() == 0
                &&& final(self).client_index() == old(self).client_index()
                &&& final(self).reconnecting().contains_key(token)
                &&& final(self).reconnecting().remove(token) == old(self).reconnecting().remove(token)
                &&& final(self).timers() == (if old(self).reconnecting().contains_key(token) {
                    old(self).timers().remove(old(self).reconnecting()[token])
                } else {
                    old(self).timers()
                }).insert(
                    final(self).reconnecting()[token],
                    Timer {
                        deadline: deadline_after(old(self).clock(), RECONNECT_DELAY_MILLIS),
                        payload: ServerTimeout::Reconnect(token),
                    },
                )
            },
            !(old(self).conns()[token].kind is Peer) ==> {
                &&& final(self).conns() == old(self).conns().remove(token)
                &&& final(self).reconnecting() == old(self).reconnecting()
                &&& final(self).timers() == old(self).timers()
            },
            old(self).conns()[token].kind matches ConnectionKind::Client(c) ==> final(self).client_index()
                == old(self).client_index().remove(c),
            old(self).conns()[token].kind is Unknown ==> final(self).client_index()
                == old(self).client_index(),
    {
        let kind = slab_get(&self.connections, token).kind;
        match kind {
            ConnectionKind::Peer(_) => {
                let ghost old_timers = self.timers@;
                if let Some(prev) = self.reconnection_timeouts.get(&token) {
                    let prev = *prev;
                    self.timers.cancel(prev);
                }
                let ghost mid_timers = self.timers@;
                let c = slab_get_mut(&mut self.connections, token);
                c.reset();
                let deadline = add_delay(self.now, RECONNECT_DELAY_MILLIS);
                let h = self.timers.arm(deadline, ServerTimeout::Reconnect(token));
                self.reconnection_timeouts.insert(token, h);
                proof {
                    let rt = self.reconnection_timeouts@;
                    let timers = self.timers@;
                    assert(final(self).reconnecting().remove(token) =~= old(self).reconnecting().remove(token));
                    assert forall|h2: usize| #[trigger] timers.contains_key(h2) implies match timers[h2].payload {
                        ServerTimeout::Reconnect(t) => rt.contains_key(t) && rt[t] == h2,
                        ServerTimeout::Consensus(k) => exists|i: int|
                            0 <= i < self.consensus_timeouts@.len() && #[trigger] self.consensus_timeouts@[i] == (k, h2),
                    } by {
                        if h2 != h {
                            assert(old_timers.contains_key(h2));
                        }
                    }
                    assert forall|t: usize| #[trigger] rt.contains_key(t) implies {
                        &&& self.conns().contains_key(t)
                        &&& self.conns()[t].kind is Peer
                        &&& timers.contains_key(rt[t])
                        &&& timers[rt[t]].payload == ServerTimeout::Reconnect(t)
                    } by {
                        if t != token {
                            assert(old(self).reconnection_timeouts@.contains_key(t));
                            assert(old_timers[old(self).reconnection_timeouts@[t]].payload == ServerTimeout::Reconnect(t));
                        }
                    }
                    assert forall|i: int| #![trigger self.consensus_timeouts@[i]]
                        0 <= i < self.consensus_timeouts@.len() implies timers.contains_key(self.consensus_timeouts@[i].1) && timers[self.consensus_timeouts@[i].1].payload
                            == ServerTimeout::Consensus(self.consensus_timeouts@[i].0) by {
                        assert(old_timers.contains_key(self.consensus_timeouts@[i].1));
                    }
                }
            },
            ConnectionKind::Client(c) => {
                slab_try_remove(&mut self.connections, token);
                self.client_tokens.remove(&c);
            },
            ConnectionKind::Unknown => {
                slab_try_remove(&mut self.connections, token);
            },
        }
    }

    /// Stores a connection accepted on the listening socket, of unknown kind,
    /// and returns its handle. Fails with `ConnectionLimitReached`, changing
    /// nothing, where the table is full.
    pub fn accept_connection(&mut self, addr: Vec<u8>) -> (r: Result<usize, RaftError>)
        requires
            old(self).wf(),
        ensures
            final(self).wf(),
            final(self).same_setup(old(self)),
            final(self).peer_index() == old(self).peer_index(),
            final(self).client_index() == old(self).client_index(),
            final(self).reconnecting() == old(self).reconnecting(),
            final(self).consensus_timers() == old(self).consensus_timers(),
            final(self).timers() == old(self).timers(),
            old(self).conns().len() >= old(self).capacity() <==> r is Err,
            r is Err ==> r == Err::<usize, RaftError>(RaftError::ConnectionLimitReached)
                && final(self).conns() == old(self).conns(),
            r matches Ok(t) ==> {
                &&& !old(self).conns().contains_key(t)
                &&& final(self).conns().dom() == old(self).conns().dom().insert(t)
                &&& forall|u: usize| #[trigger]
                    old(self).conns().contains_key(u) ==> final(self).conns()[u] == old(self).conns()[u]
                &&& final(self).conns()[t].kind == ConnectionKind::Unknown
                &&& final(self).conns()[t].addr@ == addr@
                &&& final(self).conns()[t].queue().len() == 0
            },
    {
        if slab_len(&self.connections) >= self.max_connections {
            return Err(RaftError::ConnectionLimitReached);
        }
        let ghost before = self.conns();
        let t = slab_insert(&mut self.connections, Connection::unknown(addr));
        proof {
            assert(self.conns().dom() =~= before.dom().insert(t));
            assert forall|u: usize| #[trigger] self.conns().contains_key(u) implies {
                &&& self.conns()[u].wf()
                &&& self.conns()[u].kind matches ConnectionKind::Peer(p) ==> self.peer_tokens@.contains_key(p)
                    && self.peer_tokens@[p] == u
                &&& self.conns()[u].kind matches ConnectionKind::Client(c) ==> self.client_tokens@.contains_key(c)
                    && self.client_tokens@[c] == u
            } by {
                if u != t {
                    assert(before.contains_key(u));
                }
            }
        }
        Ok(t)
    }

    /// Sets the current instant, and the sample from which election durations
    /// are drawn until the next call.
    pub fn tick(&mut self, now: u64, sample: u64)
        requires
            old(self).wf(),
        ensures
            final(self).wf(),
            final(self).clock() == now,
            final(self).clock_sample() == sample,
            final(self).self_id() == old(self).self_id(),
            final(self).listen_addr() == old(self).listen_addr(),
            final(self).timeout_config() == old(self).timeout_config(),
            final(self).capacity() == old(self).capacity(),
            final(self).peer_list() == old(self).peer_list(),
            final(self).conns() == old(self).conns(),
            final(self).peer_index() == old(self).peer_index(),
            final(self).client_index() == old(self).client_index(),
            final(self).reconnecting() == old(self).reconnecting(),
            final(self).consensus_timers() == old(self).consensus_timers(),
            final(self).timers() == old(self).timers(),
    {
        self.now = now;
        self.sample = sample;
    }

    /// The id of this server.
    pub fn id(&self) -> (r: u64)
        ensures
            r == self.self_id(),
    {
        self.id
    }

    /// The address this server listens on and announces to its peers.
    pub fn listen_address(&self) -> (r: &Vec<u8>)
        ensures
            r@ == self.listen_addr(),
    {
        &self.addr
    }

    /// The configured peers, in configuration order.
    pub fn peers(&self) -> (r: &Vec<u64>)
        ensures
            r@ == self.peer_list(),
    {
        &self.peer_ids
    }

    /// Whether the connection to peer `p` is up, that is, not in back-off.
    pub fn peer_connected(&self, p: u64) -> (r: bool)
        ensures
            r == self.peer_is_connected(p),
    {
        match self.peer_tokens.get(&p) {
            None => false,
            Some(t) => !self.reconnection_timeouts.contains_key(t),
        }
    }

    /// Whether client `c` has a connection.
    pub fn client_connected(&self, c: u128) -> (r: bool)
        ensures
            r == self.client_index().contains_key(c),
    {
        self.client_tokens.contains_key(&c)
    }

    /// The handle of peer `p`'s connection.
    pub fn peer_token(&self, p: u64) -> (r: Option<usize>)
        ensures
            r == (if self.peer_index().contains_key(p) {
                Some(self.peer_index()[p])
            } else {
                None::<usize>
            }),
    {
        match self.peer_tokens.get(&p) {
            None => None,
            Some(t) => Some(*t),
        }
    }

    /// The connection under `token`, if any.
    pub fn connection(&self, token: usize) -> (r: Option<&Connection>)
        ensures
            r == (if self.conns().contains_key(token) {
                Some(&self.conns()[token])
            } else {
                None::<&Connection>
            }),
    {
        if slab_contains(&self.connections, token) {
            Some(slab_get(&self.connections, token))
        } else {
            None
        }
    }

    /// The earliest deadline of a live timer, if any.
    pub fn next_deadline(&self) -> (r: Option<u64>)
        ensures
            r is None ==> self.timers().dom() == Set::<usize>::empty(),
            r matches Some(d) ==> (exists|h: usize| #[trigger]
                self.timers().contains_key(h) && self.timers()[h].deadline == d) && forall|g: usize| #[trigger]
                self.timers().contains_key(g) ==> d <= self.timers()[g].deadline,
    {
        self.timers.next_deadline()
    }

    /// Takes a message received on the connection under `token`. On a peer or
    /// client connection the message goes to consensus and nothing changes. On
    /// a connection of unknown kind the message must be a preamble: a server
    /// preamble of a configured peer makes the connection that peer's (the
    /// previous connection leaves the table, with its reconnection timer); a
    /// client preamble makes it the client's. Anything else is an error, and
    /// nothing changes; the caller then resets the connection.
    pub fn handle_message(&mut self, token: usize, message: Vec<u8>) -> (r: Result<Delivery, RaftError>)
        requires
            old(self).wf(),
            old(self).conns().contains_key(token),
        ensures
            final(self).wf(),
            final(self).same_setup(old(self)),
            final(self).consensus_timers() == old(self).consensus_timers(),
            r is Err ==> {
                &&& final(self).conns() == old(self).conns()
                &&& final(self).peer_index() == old(self).peer_index()
                &&& final(self).client_index() == old(self).client_index()
                &&& final(self).reconnecting() == old(self).reconnecting()
                &&& final(self).timers() == old(self).timers()
            },
            old(self).conns()[token].kind matches ConnectionKind::Peer(p) ==> r matches Ok(
                Delivery::Peer { id, message: m },
            ) && id == p && m@ == message@ && *final(self) == *old(self),
            old(self).conns()[token].kind matches ConnectionKind::Client(c) ==> r matches Ok(
                Delivery::Client { id, message: m },
            ) && id == c && m@ == message@ && *final(self) == *old(self),
            old(self).conns()[token].kind is Unknown ==> match parse_preamble(message@) {
                None => r == Err::<Delivery, RaftError>(RaftError::UnknownConnectionType),
                Some(PreambleView::Server { id: p, addr }) => if !old(self).peer_index().contains_key(p) {
                    r == Err::<Delivery, RaftError>(RaftError::UnknownPeer)
                } else {
                    let prev = old(self).peer_index()[p];
                    &&& r matches Ok(Delivery::PeerConnected { id, addr: a, replaced })
                        && id == p && a@ == addr && replaced == prev
                    &&& final(self).peer_index() == old(self).peer_index().insert(p, token)
                    &&& final(self).conns().dom() == old(self).conns().dom().remove(prev)
                    &&& forall|t: usize| #[trigger]
                        final(self).conns().contains_key(t) && t != token ==> final(self).conns()[t]
                            == old(self).conns()[t]
                    &&& final(self).conns()[token].kind == ConnectionKind::Peer(p)
                    &&& final(self).conns()[token].addr@ == addr
                    &&& final(self).conns()[token].queue() == old(self).conns()[token].queue()
                    &&& final(self).client_index() == old(self).client_index()
                    &&& final(self).reconnecting() == old(self).reconnecting().remove(prev)
                    &&& final(self).timers() == (if old(self).reconnecting().contains_key(prev) {
                        old(self).timers().remove(old(self).reconnecting()[prev])
                    } else {
                        old(self).timers()
                    })
                },
                Some(PreambleView::Client { id: c }) => if old(self).client_index().contains_key(c) {
                    r == Err::<Delivery, RaftError>(RaftError::DuplicateClient)
                } else {
                    &&& r matches Ok(Delivery::ClientConnected { id }) && id == c
                    &&& final(self).client_index() == old(self).client_index().insert(c, token)
                    &&& final(self).conns().dom() == old(self).conns().dom()
                    &&& forall|t: usize| #[trigger]
                        final(self).conns().contains_key(t) && t != token ==> final(self).conns()[t]
                            == old(self).conns()[t]
                    &&& final(self).conns()[token].kind == ConnectionKind::Client(c)
                    &&& final(self).conns()[token].addr == old(self).conns()[token].addr
                    &&& final(self).conns()[token].queue() == old(self).conns()[token].queue()
                    &&& final(self).peer_index() == old(self).peer_index()
                    &&& final(self).reconnecting() == old(self).reconnecting()
                    &&& final(self).timers() == old(self).timers()
                },
            },
    {
        let kind = slab_get(&self.connections, token).kind;
        match kind {
            ConnectionKind::Peer(p) => Ok(Delivery::Peer { id: p, message }),
            ConnectionKind::Client(c) => Ok(Delivery::Client { id: c, message }),
            ConnectionKind::Unknown => match decode_preamble(&message) {
                None => Err(RaftError::UnknownConnectionType),
                Some(Preamble::Server { id: p, addr }) => {
                    let prev = match self.peer_tokens.get(&p) {
                        None => {
                            return Err(RaftError::UnknownPeer);
                        },
                        Some(t) => *t,
                    };
                    let ghost conns0 = self.conns();
                    let ghost timers0 = self.timers@;
                    let ghost rt0 = self.reconnection_timeouts@;
                    let c = slab_get_mut(&mut self.connections, token);
                    c.kind = ConnectionKind::Peer(p);
                    c.addr = addr.clone();
                    slab_try_remove(&mut self.connections, prev);
                    self.peer_tokens.insert(p, token);
                    if let Some(h) = self.reconnection_timeouts.remove(&prev) {
                        self.timers.cancel(h);
                    }
                    proof {
                        let conns = self.conns();
                        let rt = self.reconnection_timeouts@;
                        let timers = self.timers@;
                        assert(conns.dom() =~= conns0.dom().remove(prev));
                        assert(rt =~= rt0.remove(prev));
                        assert(rt0.contains_key(prev) ==> timers =~= timers0.remove(rt0[prev]));
                        assert(!rt0.contains_key(prev) ==> timers =~= timers0);
                        assert forall|t: usize| #[trigger] conns.contains_key(t) implies {
                            &&& conns[t].wf()
                            &&& conns[t].kind matches ConnectionKind::Peer(q) ==> self.peer_tokens@.contains_key(q)
                                && self.peer_tokens@[q] == t
                            &&& conns[t].kind matches ConnectionKind::Client(cl) ==> self.client_tokens@.contains_key(cl)
                                && self.client_tokens@[cl] == t
                        } by {
                            if t != token {
                                assert(conns0.contains_key(t));
                            }
                        }
                        assert forall|h2: usize| #[trigger] timers.contains_key(h2) implies match timers[h2].payload {
                            ServerTimeout::Reconnect(t) => rt.contains_key(t) && rt[t] == h2,
                            ServerTimeout::Consensus(k) => exists|i: int|
                                0 <= i < self.consensus_timeouts@.len() && #[trigger] self.consensus_timeouts@[i] == (k, h2),
                        } by {
                            assert(timers0.contains_key(h2));
                            if let ServerTimeout::Reconnect(t) = timers[h2].payload {
                                assert(rt0.contains_key(t) && rt0[t] == h2);
                            }
                        }
                        assert forall|t: usize| #[trigger] rt.contains_key(t) implies {
                            &&& conns.contains_key(t)
                            &&& conns[t].kind is Peer
                            &&& timers.contains_key(rt[t])
                            &&& timers[rt[t]].payload == ServerTimeout::Reconnect(t)
                        } by {
                            assert(rt0.contains_key(t));
                        }
                        assert forall|i: int| #![trigger self.consensus_timeouts@[i]]
                            0 <= i < self.consensus_timeouts@.len() implies timers.contains_key(self.consensus_timeouts@[i].1) && timers[self.consensus_timeouts@[i].1].payload
                                == ServerTimeout::Consensus(self.consensus_timeouts@[i].0) by {
                            assert(timers0.contains_key(self.consensus_timeouts@[i].1));
                        }
                    }
                    Ok(Delivery::PeerConnected { id: p, addr, replaced: prev })
                },
                Some(Preamble::Client { id: c }) => {
                    if self.client_tokens.contains_key(&c) {
                        return Err(RaftError::DuplicateClient);
                    }
                    let ghost conns0 = self.conns();
                    let conn = slab_get_mut(&mut self.connections, token);
                    conn.kind = ConnectionKind::Client(c);
                    self.client_tokens.insert(c, token);
                    proof {
                        let conns = self.conns();
                        assert(conns.dom() =~= conns0.dom());
                        assert forall|t: usize| #[trigger] conns.contains_key(t) implies {
                            &&& conns[t].wf()
                            &&& conns[t].kind matches ConnectionKind::Peer(q) ==> self.peer_tokens@.contains_key(q)
                                && self.peer_tokens@[q] == t
                            &&& conns[t].kind matches ConnectionKind::Client(cl) ==> self.client_tokens@.contains_key(cl)
                                && self.client_tokens@[cl] == t
                        } by {
                            if t != token {
                                assert(conns0.contains_key(t));
                            }
                        }
                    }
                    Ok(Delivery::ClientConnected { id: c })
                },
            },
        }
    }

    /// The outcome of firing the timer under `h`, of `old`, giving `r`: it was
    /// the earliest live timer, and due.
    pub open spec fn fired_from(&self, old: &Server, r: Option<Fired>, h: usize) -> bool {
        &&& old.timers().contains_key(h)
        &&& old.timers()[h].deadline <= old.clock()
        &&& forall|g: usize| #[trigger]
            old.timers().contains_key(g) ==> old.timers()[h].deadline
                <= old.timers()[g].deadline
        &&& self.timers() == old.timers().remove(h)
        &&& r matches Some(Fired::Consensus(k)) ==> {
            &&& old.timers()[h].payload == ServerTimeout::Consensus(k)
            &&& exists|i: int| 0 <= i < old.consensus_timers().len()
                && #[trigger] old.consensus_timers()[i] == (k, h)
                && self.consensus_timers() == old.consensus_timers().remove(i)
            &&& self.conns() == old.conns()
            &&& self.reconnecting() == old.reconnecting()
        }
        &&& r matches Some(Fired::Reconnect { token, id, addr }) ==> {
            &&& old.timers()[h].payload == ServerTimeout::Reconnect(token)
            &&& old.reconnecting().contains_key(token)
            &&& old.reconnecting()[token] == h
            &&& self.reconnecting() == old.reconnecting().remove(token)
            &&& self.consensus_timers() == old.consensus_timers()
            &&& old.conns()[token].kind == ConnectionKind::Peer(id)
            &&& addr@ == old.conns()[token].addr@
            &&& self.conns().dom() == old.conns().dom()
            &&& forall|t: usize| #[trigger]
                self.conns().contains_key(t) && t != token ==> self.conns()[t]
                    == old.conns()[t]
            &&& self.conns()[token].kind == old.conns()[token].kind
            &&& self.conns()[token].addr == old.conns()[token].addr
            &&& self.conns()[token].queue() == seq![
                server_preamble_frame(old.self_id(), old.listen_addr()),
            ] + old.conns()[token].queue()
            &&& self.peer_is_connected(id)
        }
    }

    fn preamble_frame(&self) -> (r: Vec<u8>)
        requires
            self.wf(),
        ensures
            r@ == server_preamble_frame(self.self_id(), self.listen_addr()),
            r@.len() > 0,
    {
        let p = Preamble::Server { id: self.id, addr: self.addr.clone() };
        let payload = encode_preamble(&p);
        encode_frame(&payload)
    }

    /// Fires the live timer with the earliest deadline, if that deadline is not
    /// after the current instant. A consensus timer leaves its index. A
    /// reconnection timer ends the back-off of its peer connection, whose
    /// queue then starts with this server's preamble.
    pub fn expire(&mut self) -> (r: Option<Fired>)
        requires
            old(self).wf(),
        ensures
            final(self).wf(),
            final(self).same_setup(old(self)),
            final(self).peer_index() == old(self).peer_index(),
            final(self).client_index() == old(self).client_index(),
            r is None ==> final(self).same_state(old(self)) && forall|h: usize| #[trigger]
                old(self).timers().contains_key(h) ==> old(self).timers()[h].deadline > old(self).clock(),
            r is Some ==> exists|h: usize| #[trigger] old(self).timers().contains_key(h)
                && final(self).fired_from(old(self), r, h),
    {
        let ghost timers0 = self.timers@;
        let popped = self.timers.pop_expired(self.now);
        match popped {
            None => None,
            Some((h, ServerTimeout::Consensus(k))) => {
                proof {
                    assert(timers0.contains_key(h));
                }
                let ghost ct0 = self.consensus_timeouts@;
                let mut i: usize = 0;
                while i < self.consensus_timeouts.len() && self.consensus_timeouts[i].0 != k
                    invariant
                        i <= self.consensus_timeouts@.len(),
                        self.consensus_timeouts@ == ct0,
                        forall|j: int| 0 <= j < i ==> #[trigger] ct0[j].0 != k,
                    decreases self.consensus_timeouts@.len() - i,
                {
                    i = i + 1;
                }
                proof {
                    let ii = choose|ii: int| 0 <= ii < ct0.len() && #[trigger] ct0[ii] == (k, h);
                    assert(ct0[ii].0 == k);
                    assert(i < ct0.len());
                    assert(ii == i);
                }
                self.consensus_timeouts.remove(i);
                proof {
                    let ct = self.consensus_timeouts@;
                    let timers = self.timers@;
                    assert forall|h2: usize| #[trigger] timers.contains_key(h2) implies match timers[h2].payload {
                        ServerTimeout::Reconnect(t) => self.reconnection_timeouts@.contains_key(t) && self.reconnection_timeouts@[t] == h2,
                        ServerTimeout::Consensus(k2) => exists|j: int|
                            0 <= j < ct.len() && #[trigger] ct[j] == (k2, h2),
                    } by {
                        assert(timers0.contains_key(h2));
                        if let ServerTimeout::Consensus(k2) = timers[h2].payload {
                            let j = choose|j: int| 0 <= j < ct0.len() && #[trigger] ct0[j] == (k2, h2);
                            assert(j != i);
                            if j < i {
                                assert(ct[j] == (k2, h2));
                            } else {
                                assert(ct[j - 1] == (k2, h2));
                            }
                        }
                    }
                    assert forall|j: int| #![trigger ct[j]]
                        0 <= j < ct.len() implies timers.contains_key(ct[j].1) && timers[ct[j].1].payload
                            == ServerTimeout::Consensus(ct[j].0) by {
                        if j < i {
                            assert(ct[j] == ct0[j]);
                            assert(j != i);
                        } else {
                            assert(ct[j] == ct0[j + 1]);
                        }
                    }
                    assert forall|j1: int, j2: int|
                        0 <= j1 < ct.len() && 0 <= j2 < ct.len() && #[trigger] ct[j1].0 == #[trigger] ct[j2].0
                            implies j1 == j2 by {
                        let a = if j1 < i { j1 } else { j1 + 1 };
                        let b = if j2 < i { j2 } else { j2 + 1 };
                        assert(ct0[a].0 == ct0[b].0);
                    }
                    assert forall|t: usize| #[trigger] self.reconnection_timeouts@.contains_key(t) implies {
                        &&& self.conns().contains_key(t)
                        &&& self.conns()[t].kind is Peer
                        &&& timers.contains_key(self.reconnection_timeouts@[t])
                        &&& timers[self.reconnection_timeouts@[t]].payload == ServerTimeout::Reconnect(t)
                    } by {
                        assert(timers0[self.reconnection_timeouts@[t]].payload == ServerTimeout::Reconnect(t));
                    }
                }
                let r = Some(Fired::Consensus(k));
                proof {
                    assert(old(self).timers().contains_key(h));
                    assert(old(self).consensus_timers()[i as int] == (k, h));
                    assert(self.consensus_timers() == old(self).consensus_timers().remove(i as int));
                    assert(self.fired_from(old(self), r, h));
                }
                r
            },
            Some((h, ServerTimeout::Reconnect(token))) => {
                proof {
                    assert(timers0.contains_key(h));
                }
                let ghost rt0 = self.reconnection_timeouts@;
                let ghost conns0 = self.conns();
                self.reconnection_timeouts.remove(&token);
                let frame = self.preamble_frame();
                let c = slab_get_mut(&mut self.connections, token);
                c.restart_with(frame);
                let id = match c.kind {
                    ConnectionKind::Peer(p) => p,
                    _ => 0,
                };
                let addr = c.addr.clone();
                proof {
                    let conns = self.conns();
                    let rt = self.reconnection_timeouts@;
                    let timers = self.timers@;
                    assert(conns.dom() =~= conns0.dom());
                    assert(rt =~= rt0.remove(token));
                    assert forall|t: usize| #[trigger] conns.contains_key(t) implies {
                        &&& conns[t].wf()
                        &&& conns[t].kind matches ConnectionKind::Peer(q) ==> self.peer_tokens@.contains_key(q)
                            && self.peer_tokens@[q] == t
                        &&& conns[t].kind matches ConnectionKind::Client(cl) ==> self.client_tokens@.contains_key(cl)
                            && self.client_tokens@[cl] == t
                    } by {
                        if t != token {
                            assert(conns0.contains_key(t));
                        }
                    }
                    assert forall|h2: usize| #[trigger] timers.contains_key(h2) implies match timers[h2].payload {
                        ServerTimeout::Reconnect(t) => rt.contains_key(t) && rt[t] == h2,
                        ServerTimeout::Consensus(k) => exists|i: int|
                            0 <= i < self.consensus_timeouts@.len() && #[trigger] self.consensus_timeouts@[i] == (k, h2),
                    } by {
                        assert(timers0.contains_key(h2));
                    }
                    assert forall|t: usize| #[trigger] rt.contains_key(t) implies {
                        &&& conns.contains_key(t)
                        &&& conns[t].kind is Peer
                        &&& timers.contains_key(rt[t])
                        &&& timers[rt[t]].payload == ServerTimeout::Reconnect(t)
                    } by {
                        assert(rt0.contains_key(t));
                        assert(rt0[t] != h);
                    }
                    assert forall|i: int| #![trigger self.consensus_timeouts@[i]]
                        0 <= i < self.consensus_timeouts@.len() implies timers.contains_key(self.consensus_timeouts@[i].1) && timers[self.consensus_timeouts@[i].1].payload
                            == ServerTimeout::Consensus(self.consensus_timeouts@[i].0) by {
                        assert(timers0.contains_key(self.consensus_timeouts@[i].1));
                    }
                }
                let r = Some(Fired::Reconnect { token, id, addr });
                proof {
                    assert(old(self).timers().contains_key(h));
                    assert(self.fired_from(old(self), r, h));
                }
                r
            },
        }
    }

    /// Everything but the connections is as in `other`, and the connections
    /// keep their handles, kinds and addresses.
    pub open spec fn same_but_queues(&self, other: &Server) -> bool {
        &&& self.same_setup(other)
        &&& self.peer_index() == other.peer_index()
        &&& self.client_index() == other.client_index()
        &&& self.reconnecting() == other.reconnecting()
        &&& self.consensus_timers() == other.consensus_timers()
        &&& self.timers() == other.timers()
        &&& self.conns().dom() == other.conns().dom()
        &&& forall|t: usize| #[trigger]
            self.conns().contains_key(t) ==> self.conns()[t].kind == other.conns()[t].kind
                && self.conns()[t].addr == other.conns()[t].addr
    }

    /// The queue of the connection under `t` once peer queues are dropped, if
    /// `clear_peers`.
    pub open spec fn base_queue(&self, t: usize, clear_peers: bool) -> Seq<Seq<u8>> {
        if clear_peers && self.conns()[t].kind is Peer {
            Seq::empty()
        } else {
            self.conns()[t].queue()
        }
    }

    fn clear_peer_outboxes(&mut self)
        requires
            old(self).wf(),
        ensures
            final(self).wf(),
            final(self).same_but_queues(old(self)),
            forall|t: usize| #[trigger]
                final(self).conns().contains_key(t) ==> final(self).conns()[t].queue()
                    == old(self).base_queue(t, true),
    {
        let mut i: usize = 0;
        while i < self.peer_ids.len()
            invariant
                i <= self.peer_ids@.len(),
                self.wf(),
                self.same_but_queues(old(self)),
                self.peer_ids == old(self).peer_ids,
                forall|t: usize| #[trigger]
                    self.conns().contains_key(t) ==> self.conns()[t].queue() == (if self.conns()[t].kind matches ConnectionKind::Peer(p)
                        && self.peer_ids@.subrange(0, i as int).contains(p) {
                        Seq::<Seq<u8>>::empty()
                    } else {
                        old(self).conns()[t].queue()
                    }),
            decreases self.peer_ids@.len() - i,
        {
            let p = self.peer_ids[i];
            proof {
                assert(self.peer_ids@.contains(p));
            }
            let t = *self.peer_tokens.get(&p).unwrap();
            let ghost conns0 = self.conns();
            let ghost before = *self;
            let c = slab_get_mut(&mut self.connections, t);
            c.clear_outbox();
            i = i + 1;
            proof {
                lemma_update_conn(before, *self, t);
                let conns = self.conns();
                assert forall|u: usize| #[trigger] conns.contains_key(u) implies conns[u].queue() == (if conns[u].kind matches ConnectionKind::Peer(q)
                        && self.peer_ids@.subrange(0, i as int).contains(q) {
                        Seq::<Seq<u8>>::empty()
                    } else {
                        old(self).conns()[u].queue()
                    }) by {
                    assert(conns0.contains_key(u));
                    if let ConnectionKind::Peer(q) = conns[u].kind {
                        if q == p {
                            assert(self.peer_ids@.subrange(0, i as int)[i - 1] == p);
                        } else {
                            if self.peer_ids@.subrange(0, i as int).contains(q) {
                                let k = choose|k: int| 0 <= k < i && #[trigger] self.peer_ids@.subrange(0, i as int)[k] == q;
                                assert(self.peer_ids@.subrange(0, i - 1)[k] == q);
                            }
                            if self.peer_ids@.subrange(0, i - 1).contains(q) {
                                let k = choose|k: int| 0 <= k < i - 1 && #[trigger] self.peer_ids@.subrange(0, i - 1)[k] == q;
                                assert(self.peer_ids@.subrange(0, i as int)[k] == q);
                            }
                        }
                    }
                }
            }
        }
        proof {
            assert(self.peer_ids@.subrange(0, i as int) =~= self.peer_ids@);
            assert forall|t: usize| #[trigger] self.conns().contains_key(t) implies self.conns()[t].queue()
                == old(self).base_queue(t, true) by {
                if let ConnectionKind::Peer(q) = self.conns()[t].kind {
                    assert(self.peer_tokens@.contains_key(q));
                }
            }
        }
    }

    fn send_frame(&mut self, token: usize, frame: Vec<u8>) -> (needs_rearm: bool)
        requires
            old(self).wf(),
            old(self).conns().contains_key(token),
            frame@.len() > 0,
        ensures
            final(self).wf(),
            final(self).same_but_queues(old(self)),
            forall|t: usize| #[trigger]
                final(self).conns().contains_key(t) && t != token ==> final(self).conns()[t].queue()
                    == old(self).conns()[t].queue(),
            final(self).conns()[token].queue() == old(self).conns()[token].queue().push(frame@),
            needs_rearm == (old(self).conns()[token].queue().len() == 0),
    {
        let ghost before = *self;
        let c = slab_get_mut(&mut self.connections, token);
        let r = c.enqueue(frame);
        proof {
            lemma_update_conn(before, *self, token);
        }
        r
    }

    /// The live timers but those of consensus timeout `k`.
    pub open spec fn timers_without_kind(&self, k: ConsensusTimeout) -> Map<usize, Timer> {
        Map::new(
            |h: usize| self.timers().contains_key(h) && self.timers()[h].payload != ServerTimeout::Consensus(k),
            |h: usize| self.timers()[h],
        )
    }

    /// The live reconnection timers.
    pub open spec fn reconnect_timers(&self) -> Map<usize, Timer> {
        Map::new(
            |h: usize| self.timers().contains_key(h) && self.timers()[h].payload is Reconnect,
            |h: usize| self.timers()[h],
        )
    }

    /// All but the timers are as in `other`.
    pub open spec fn same_but_timers(&self, other: &Server) -> bool {
        &&& self.same_setup(other)
        &&& self.conns() == other.conns()
        &&& self.peer_index() == other.peer_index()
        &&& self.client_index() == other.client_index()
        &&& self.reconnecting() == other.reconnecting()
    }

    fn clear_consensus_timers(&mut self)
        requires
            old(self).wf(),
        ensures
            final(self).wf(),
            final(self).same_but_timers(old(self)),
            final(self).consensus_timers().len() == 0,
            final(self).timers() == old(self).reconnect_timers(),
    {
        let ghost ct = self.consensus_timeouts@;
        let mut i: usize = 0;
        while i < self.consensus_timeouts.len()
            invariant
                i <= ct.len(),
                self.consensus_timeouts@ == ct,
                old(self).wf(),
                self.same_but_timers(old(self)),
                self.timers@ == Map::new(
                    |h: usize| old(self).timers().contains_key(h) && !(exists|j: int| 0 <= j < i && #[trigger] ct[j].1 == h),
                    |h: usize| old(self).timers()[h],
                ),
            decreases ct.len() - i,
        {
            let h = self.consensus_timeouts[i].1;
            let ghost t0 = self.timers@;
            self.timers.cancel(h);
            i = i + 1;
            proof {
                assert(self.timers@ =~= Map::new(
                    |h2: usize| old(self).timers().contains_key(h2) && !(exists|j: int| 0 <= j < i && #[trigger] ct[j].1 == h2),
                    |h2: usize| old(self).timers()[h2],
                )) by {
                    assert forall|h2: usize| t0.contains_key(h2) && h2 != h implies !(exists|j: int| 0 <= j < i && #[trigger] ct[j].1 == h2) by {
                        if exists|j: int| 0 <= j < i && #[trigger] ct[j].1 == h2 {
                            let j = choose|j: int| 0 <= j < i && #[trigger] ct[j].1 == h2;
                            assert(j != i - 1);
                        }
                    }
                    assert forall|h2: usize| !t0.contains_key(h2) && old(self).timers().contains_key(h2) implies (exists|j: int| 0 <= j < i && #[trigger] ct[j].1 == h2) by {
                        let j = choose|j: int| 0 <= j < i - 1 && #[trigger] ct[j].1 == h2;
                    }
                    assert(ct[i - 1].1 == h);
                }
            }
        }
        self.consensus_timeouts = Vec::new();
        proof {
            let timers = self.timers@;
            assert(timers =~= old(self).reconnect_timers()) by {
                assert forall|h: usize| #[trigger] timers.contains_key(h) implies old(self).timers()[h].payload is Reconnect by {
                    if let ServerTimeout::Consensus(k) = old(self).timers()[h].payload {
                        let j = choose|j: int| 0 <= j < ct.len() && #[trigger] ct[j] == (k, h);
                        assert(ct[j].1 == h);
                    }
                }
                assert forall|h: usize| #[trigger] old(self).timers().contains_key(h) && old(self).timers()[h].payload is Reconnect implies timers.contains_key(h) by {
                    if exists|j: int| 0 <= j < i && #[trigger] ct[j].1 == h {
                        let j = choose|j: int| 0 <= j < i && #[trigger] ct[j].1 == h;
                        assert(old(self).timers()[ct[j].1].payload == ServerTimeout::Consensus(ct[j].0));
                    }
                }
            }
            assert forall|h: usize| #[trigger] timers.contains_key(h) implies match timers[h].payload {
                ServerTimeout::Reconnect(t) => self.reconnection_timeouts@.contains_key(t) && self.reconnection_timeouts@[t] == h,
                ServerTimeout::Consensus(k) => exists|j: int|
                    0 <= j < self.consensus_timeouts@.len() && #[trigger] self.consensus_timeouts@[j] == (k, h),
            } by {
                assert(old(self).timers().contains_key(h));
            }
            assert forall|t: usize| #[trigger] self.reconnection_timeouts@.contains_key(t) implies {
                &&& self.conns().contains_key(t)
                &&& self.conns()[t].kind is Peer
                &&& timers.contains_key(self.reconnection_timeouts@[t])
                &&& timers[self.reconnection_timeouts@[t]].payload == ServerTimeout::Reconnect(t)
            } by {
                assert(old(self).timers().contains_key(self.reconnection_timeouts@[t]));
            }
        }
    }

    /// The timer that consensus timeout `k` gets now.
    pub open spec fn consensus_timer_for(&self, k: ConsensusTimeout) -> Timer {
        Timer {
            deadline: deadline_after(self.clock(), self.timeout_config().duration_spec(k, self.clock_sample())),
            payload: ServerTimeout::Consensus(k),
        }
    }

    fn arm_consensus_timer(&mut self, k: ConsensusTimeout)
        requires
            old(self).wf(),
        ensures
            final(self).wf(),
            final(self).same_but_timers(old(self)),
            final(self).has_consensus_timer(k),
            forall|k2: ConsensusTimeout| k2 != k ==> (final(self).has_consensus_timer(k2) <==> old(self).has_consensus_timer(k2)),
            exists|h: usize| !old(self).timers_without_kind(k).contains_key(h)
                && final(self).timers() == old(self).timers_without_kind(k).insert(h, old(self).consensus_timer_for(k)),
    {
        let ghost ct0 = self.consensus_timeouts@;
        let ghost timers0 = self.timers@;
        let mut i: usize = 0;
        while i < self.consensus_timeouts.len() && self.consensus_timeouts[i].0 != k
            invariant
                i <= self.consensus_timeouts@.len(),
                self.consensus_timeouts@ == ct0,
                forall|j: int| 0 <= j < i ==> #[trigger] ct0[j].0 != k,
            decreases self.consensus_timeouts@.len() - i,
        {
            i = i + 1;
        }
        if i < self.consensus_timeouts.len() {
            let h = self.consensus_timeouts[i].1;
            self.timers.cancel(h);
            self.consensus_timeouts.remove(i);
            proof {
                assert(self.timers@ =~= old(self).timers_without_kind(k)) by {
                    assert forall|h2: usize| #[trigger] timers0.contains_key(h2) && timers0[h2].payload == ServerTimeout::Consensus(k) implies h2 == h by {
                        let j = choose|j: int| 0 <= j < ct0.len() && #[trigger] ct0[j] == (k, h2);
                        assert(ct0[j].0 == ct0[i as int].0);
                    }
                }
            }
        } else {
            proof {
                assert(self.timers@ =~= old(self).timers_without_kind(k)) by {
                    assert forall|h2: usize| #[trigger] timers0.contains_key(h2) implies timers0[h2].payload != ServerTimeout::Consensus(k) by {
                        if timers0[h2].payload == ServerTimeout::Consensus(k) {
                            let j = choose|j: int| 0 <= j < ct0.len() && #[trigger] ct0[j] == (k, h2);
                            assert(ct0[j].0 == k);
                        }
                    }
                }
            }
        }
        let ghost ct1 = self.consensus_timeouts@;
        let ghost timers1 = self.timers@;
        proof {
            assert forall|j: int| 0 <= j < ct1.len() implies #[trigger] ct1[j].0 != k && timers1.contains_key(ct1[j].1)
                && timers1[ct1[j].1] == timers0[ct1[j].1] by {
                let jj = if i < ct0.len() && j >= i { j + 1 } else { j };
                assert(ct1[j] == ct0[jj]);
                if ct0[jj].0 == k {
                    assert(jj < i || i < ct0.len());
                    if i < ct0.len() {
                        assert(ct0[jj].0 == ct0[i as int].0);
                    }
                }
            }
        }
        let duration = self.config.duration_ms(k, self.sample);
        let deadline = add_delay(self.now, duration);
        let h = self.timers.arm(deadline, ServerTimeout::Consensus(k));
        self.consensus_timeouts.push((k, h));
        proof {
            let ct = self.consensus_timeouts@;
            let timers = self.timers@;
            assert(ct.len() == ct1.len() + 1);
            assert(ct[ct.len() - 1] == (k, h));
            assert(forall|j: int| 0 <= j < ct1.len() ==> #[trigger] ct[j] == ct1[j]);
            assert(self.has_consensus_timer(k)) by {
                assert(self.consensus_timers()[ct.len() - 1].0 == k);
            }
            assert forall|k2: ConsensusTimeout| k2 != k implies (self.has_consensus_timer(k2) <==> old(self).has_consensus_timer(k2)) by {
                if self.has_consensus_timer(k2) {
                    let j = choose|j: int| 0 <= j < ct.len() && #[trigger] ct[j].0 == k2;
                    assert(j < ct1.len());
                    let jj = if i < ct0.len() && j >= i { j + 1 } else { j };
                    assert(ct1[j] == ct0[jj]);
                    assert(old(self).consensus_timers()[jj].0 == k2);
                }
                if old(self).has_consensus_timer(k2) {
                    let jj = choose|jj: int| 0 <= jj < ct0.len() && #[trigger] ct0[jj].0 == k2;
                    assert(jj != i);
                    let j = if jj > i { jj - 1 } else { jj };
                    assert(ct1[j] == ct0[jj]);
                    assert(self.consensus_timers()[j].0 == k2);
                }
            }
            assert forall|h2: usize| #[trigger] timers.contains_key(h2) implies match timers[h2].payload {
                ServerTimeout::Reconnect(t) => self.reconnection_timeouts@.contains_key(t) && self.reconnection_timeouts@[t] == h2,
                ServerTimeout::Consensus(k2) => exists|j: int|
                    0 <= j < ct.len() && #[trigger] ct[j] == (k2, h2),
            } by {
                if h2 != h {
                    assert(timers1.contains_key(h2));
                    assert(timers0.contains_key(h2));
                    if let ServerTimeout::Consensus(k2) = timers[h2].payload {
                        let jj = choose|jj: int| 0 <= jj < ct0.len() && #[trigger] ct0[jj] == (k2, h2);
                        assert(k2 != k);
                        assert(jj != i);
                        let j = if i < ct0.len() && jj > i { jj - 1 } else { jj };
                        assert(ct1[j] == ct0[jj]);
                        assert(ct[j] == (k2, h2));
                    }
                } else {
                    assert(ct[ct.len() - 1] == (k, h2));
                }
            }
            assert forall|j: int| #![trigger ct[j]]
                0 <= j < ct.len() implies timers.contains_key(ct[j].1) && timers[ct[j].1].payload
                    == ServerTimeout::Consensus(ct[j].0) by {
                if j < ct1.len() {
                    let jj = if i < ct0.len() && j >= i { j + 1 } else { j };
                    assert(ct1[j] == ct0[jj]);
                    assert(ct[j] == ct1[j]);
                    assert(timers1.contains_key(ct1[j].1));
                }
            }
            assert forall|j1: int, j2: int|
                0 <= j1 < ct.len() && 0 <= j2 < ct.len() && #[trigger] ct[j1].0 == #[trigger] ct[j2].0
                    implies j1 == j2 by {
                if j1 < ct1.len() && j2 < ct1.len() {
                    let a = if i < ct0.len() && j1 >= i { j1 + 1 } else { j1 };
                    let b = if i < ct0.len() && j2 >= i { j2 + 1 } else { j2 };
                    assert(ct1[j1] == ct0[a]);
                    assert(ct1[j2] == ct0[b]);
                    assert(ct0[a].0 == ct0[b].0);
                } else if j1 < ct1.len() {
                    assert(ct[j1] == ct1[j1]);
                } else if j2 < ct1.len() {
                    assert(ct[j2] == ct1[j2]);
                }
            }
            assert forall|t: usize| #[trigger] self.reconnection_timeouts@.contains_key(t) implies {
                &&& self.conns().contains_key(t)
                &&& self.conns()[t].kind is Peer
                &&& timers.contains_key(self.reconnection_timeouts@[t])
                &&& timers[self.reconnection_timeouts@[t]].payload == ServerTimeout::Reconnect(t)
            } by {
                assert(timers0.contains_key(self.reconnection_timeouts@[t]));
            }
            assert(!old(self).timers_without_kind(k).contains_key(h));
        }
    }

    /// Every peer message goes to a configured peer, and every message fits
    /// in a frame.
    pub open spec fn admits(&self, a: &Actions) -> bool {
        &&& forall|i: int| #![trigger a.peer_messages@[i]]
            0 <= i < a.peer_messages@.len() ==> a.peer_messages@[i].1@.len() <= MAX_FRAME_LEN
                && self.peer_index().contains_key(a.peer_messages@[i].0)
        &&& forall|i: int| #![trigger a.client_messages@[i]]
            0 <= i < a.client_messages@.len() ==> a.client_messages@[i].1@.len() <= MAX_FRAME_LEN
    }

    /// Whether `a` can be executed: see `admits`.
    pub fn can_execute(&self, a: &Actions) -> (r: bool)
        ensures
            r == self.admits(a),
    {
        let mut i: usize = 0;
        while i < a.peer_messages.len()
            invariant
                i <= a.peer_messages@.len(),
                forall|j: int| #![trigger a.peer_messages@[j]]
                    0 <= j < i ==> a.peer_messages@[j].1@.len() <= MAX_FRAME_LEN
                        && self.peer_index().contains_key(a.peer_messages@[j].0),
            decreases a.peer_messages@.len() - i,
        {
            if a.peer_messages[i].1.len() > MAX_FRAME_LEN || !self.peer_tokens.contains_key(&a.peer_messages[i].0) {
                return false;
            }
            i = i + 1;
        }
        let mut j: usize = 0;
        while j < a.client_messages.len()
            invariant
                j <= a.client_messages@.len(),
                forall|k: int| #![trigger a.client_messages@[k]]
                    0 <= k < j ==> a.client_messages@[k].1@.len() <= MAX_FRAME_LEN,
            decreases a.client_messages@.len() - j,
        {
            if a.client_messages[j].1.len() > MAX_FRAME_LEN {
                return false;
            }
            j = j + 1;
        }
        true
    }

    /// Carries out what consensus asked for, in the fixed order of `Actions`:
    /// with `clear_peer_messages` every peer's queue is dropped; each peer
    /// message is queued on its peer's connection; each client message on its
    /// client's connection, or dropped where the client is gone; with
    /// `clear_timeouts` every consensus timer is cancelled; each listed timer
    /// is armed, after the live one of its kind, if any, is cancelled. Returns
    /// the handles of the connections whose queue was empty and no longer is,
    /// which need write interest.
    pub fn execute_actions(&mut self, actions: Actions) -> (rearm: Vec<usize>)
        requires
            old(self).wf(),
            old(self).admits(&actions),
        ensures
            final(self).wf(),
            final(self).same_setup(old(self)),
            final(self).peer_index() == old(self).peer_index(),
            final(self).client_index() == old(self).client_index(),
            final(self).reconnecting() == old(self).reconnecting(),
            final(self).conns().dom() == old(self).conns().dom(),
            forall|t: usize| #[trigger]
                final(self).conns().contains_key(t) ==> {
                    &&& final(self).conns()[t].kind == old(self).conns()[t].kind
                    &&& final(self).conns()[t].addr == old(self).conns()[t].addr
                    &&& final(self).conns()[t].queue() == old(self).base_queue(t, actions.clear_peer_messages)
                        + frames_for(old(self).conns()[t].kind, actions.peer_messages@, actions.client_messages@)
                },
            forall|t: usize| #[trigger]
                rearm@.contains(t) <==> old(self).conns().contains_key(t) && old(self).base_queue(
                    t,
                    actions.clear_peer_messages,
                ).len() == 0 && frames_for(old(self).conns()[t].kind, actions.peer_messages@, actions.client_messages@).len() > 0,
            final(self).reconnect_timers() == old(self).reconnect_timers(),
            forall|k: ConsensusTimeout| #[trigger]
                final(self).has_consensus_timer(k) <==> actions.timeouts@.contains(k) || (!actions.clear_timeouts
                    && old(self).has_consensus_timer(k)),
            forall|h: usize| #[trigger]
                final(self).timers().contains_key(h) ==> match final(self).timers()[h].payload {
                    ServerTimeout::Consensus(k) => if actions.timeouts@.contains(k) {
                        final(self).timers()[h] == old(self).consensus_timer_for(k)
                    } else {
                        old(self).timers().contains_key(h) && old(self).timers()[h] == final(self).timers()[h]
                    },
                    ServerTimeout::Reconnect(_) => true,
                },
            actions.is_empty() ==> final(self).same_state(old(self)) && rearm@.len() == 0,
    {
        let mut rearm: Vec<usize> = Vec::new();
        if actions.clear_peer_messages {
            self.clear_peer_outboxes();
        }
        let ghost mid = *self;
        proof {
            assert forall|t: usize| #[trigger] mid.conns().contains_key(t) implies mid.conns()[t].queue()
                == old(self).base_queue(t, actions.clear_peer_messages) && mid.conns()[t].kind == old(self).conns()[t].kind by {}
            assert(actions.peer_messages@.take(0) =~= Seq::<(u64, Vec<u8>)>::empty());
            assert(actions.client_messages@.take(0) =~= Seq::<(u128, Vec<u8>)>::empty());
        }
        let mut i: usize = 0;
        while i < actions.peer_messages.len()
            invariant
                i <= actions.peer_messages@.len(),
                self.wf(),
                mid.wf(),
                self.same_but_queues(&mid),
                mid.admits(&actions),
                forall|t: usize| #[trigger]
                    self.conns().contains_key(t) ==> self.conns()[t].queue() == mid.conns()[t].queue() + frames_for(
                        mid.conns()[t].kind,
                        actions.peer_messages@.take(i as int),
                        Seq::empty(),
                    ),
                forall|t: usize| #[trigger]
                    rearm@.contains(t) <==> mid.conns().contains_key(t) && mid.conns()[t].queue().len() == 0
                        && frames_for(mid.conns()[t].kind, actions.peer_messages@.take(i as int), Seq::empty()).len() > 0,
                actions.peer_messages@.len() == 0 ==> *self == mid && rearm@.len() == 0,
            decreases actions.peer_messages@.len() - i,
        {
            let p = actions.peer_messages[i].0;
            let frame = encode_frame(&actions.peer_messages[i].1);
            let t = *self.peer_tokens.get(&p).unwrap();
            let ghost before = *self;
            let ghost old_rearm = rearm@;
            let needs = self.send_frame(t, frame);
            if needs {
                rearm.push(t);
            }
            proof {
                let msgs = actions.peer_messages@;
                assert(msgs.take(i + 1).drop_last() =~= msgs.take(i as int));
                assert(msgs.take(i + 1).last() == msgs[i as int]);
                assert forall|u: usize| #[trigger] self.conns().contains_key(u) implies self.conns()[u].queue()
                    == mid.conns()[u].queue() + frames_for(mid.conns()[u].kind, msgs.take(i + 1), Seq::empty()) by {
                    assert(before.conns().contains_key(u));
                    if u == t {
                        assert((mid.conns()[u].queue() + frames_for(mid.conns()[u].kind, msgs.take(i as int), Seq::empty())).push(framed(msgs[i as int].1@))
                            =~= mid.conns()[u].queue() + frames_for(mid.conns()[u].kind, msgs.take(i + 1), Seq::empty()));
                    } else {
                        if let ConnectionKind::Peer(q) = mid.conns()[u].kind {
                            assert(q != p);
                        }
                    }
                }
                assert forall|u: usize| #[trigger] rearm@.contains(u) <==> mid.conns().contains_key(u) && mid.conns()[u].queue().len() == 0
                    && frames_for(mid.conns()[u].kind, msgs.take(i + 1), Seq::empty()).len() > 0 by {
                    if needs {
                        assert(rearm@ == old_rearm.push(t));
                        assert(rearm@[rearm@.len() - 1] == t);
                        if old_rearm.contains(u) {
                            let x = choose|x: int| 0 <= x < old_rearm.len() && old_rearm[x] == u;
                            assert(rearm@[x] == u);
                        }
                    }
                    if mid.conns().contains_key(u) {
                        if u != t {
                            if let ConnectionKind::Peer(q) = mid.conns()[u].kind {
                                assert(q != p);
                            }
                        } else {
                            assert(before.conns().contains_key(t));
                            assert(frames_for(mid.conns()[t].kind, msgs.take(i + 1), Seq::empty()) =~= frames_for(
                                mid.conns()[t].kind,
                                msgs.take(i as int),
                                Seq::empty(),
                            ).push(framed(msgs[i as int].1@)));
                        }
                    }
                }
            }
            i = i + 1;
        }
        let ghost mid2 = *self;
        proof {
            assert(actions.peer_messages@.take(i as int) =~= actions.peer_messages@);
        }
        let mut j: usize = 0;
        while j < actions.client_messages.len()
            invariant
                j <= actions.client_messages@.len(),
                self.wf(),
                mid.wf(),
                self.same_but_queues(&mid),
                mid.admits(&actions),
                forall|t: usize| #[trigger]
                    self.conns().contains_key(t) ==> self.conns()[t].queue() == mid.conns()[t].queue() + frames_for(
                        mid.conns()[t].kind,
                        actions.peer_messages@,
                        actions.client_messages@.take(j as int),
                    ),
                forall|t: usize| #[trigger]
                    rearm@.contains(t) <==> mid.conns().contains_key(t) && mid.conns()[t].queue().len() == 0
                        && frames_for(mid.conns()[t].kind, actions.peer_messages@, actions.client_messages@.take(j as int)).len() > 0,
                actions.client_messages@.len() == 0 ==> *self == mid2,
                actions.peer_messages@.len() == 0 && actions.client_messages@.len() == 0 ==> rearm@.len() == 0,
            decreases actions.client_messages@.len() - j,
        {
            let c = actions.client_messages[j].0;
            let ghost before = *self;
            let ghost old_rearm = rearm@;
            let mut needs = false;
            if let Some(t) = self.client_tokens.get(&c) {
                let t = *t;
                let frame = encode_frame(&actions.client_messages[j].1);
                needs = self.send_frame(t, frame);
                if needs {
                    rearm.push(t);
                }
            }
            proof {
                let msgs = actions.client_messages@;
                assert(msgs.take(j + 1).drop_last() =~= msgs.take(j as int));
                assert(msgs.take(j + 1).last() == msgs[j as int]);
                assert forall|u: usize| #[trigger] self.conns().contains_key(u) implies self.conns()[u].queue()
                    == mid.conns()[u].queue() + frames_for(mid.conns()[u].kind, actions.peer_messages@, msgs.take(j + 1)) by {
                    assert(before.conns().contains_key(u));
                    if before.client_tokens@.contains_key(c) && u == before.client_tokens@[c] {
                        assert((mid.conns()[u].queue() + frames_for(mid.conns()[u].kind, actions.peer_messages@, msgs.take(j as int))).push(framed(msgs[j as int].1@))
                            =~= mid.conns()[u].queue() + frames_for(mid.conns()[u].kind, actions.peer_messages@, msgs.take(j + 1)));
                    } else {
                        if let ConnectionKind::Client(q) = mid.conns()[u].kind {
                            assert(q != c);
                        }
                    }
                }
                assert forall|u: usize| #[trigger] rearm@.contains(u) <==> mid.conns().contains_key(u) && mid.conns()[u].queue().len() == 0
                    && frames_for(mid.conns()[u].kind, actions.peer_messages@, msgs.take(j + 1)).len() > 0 by {
                    if needs {
                        assert(rearm@ == old_rearm.push(before.client_tokens@[c]));
                        assert(rearm@[rearm@.len() - 1] == before.client_tokens@[c]);
                        if old_rearm.contains(u) {
                            let x = choose|x: int| 0 <= x < old_rearm.len() && old_rearm[x] == u;
                            assert(rearm@[x] == u);
                        }
                    }
                    if mid.conns().contains_key(u) {
                        if !(before.client_tokens@.contains_key(c) && u == before.client_tokens@[c]) {
                            if let ConnectionKind::Client(q) = mid.conns()[u].kind {
                                assert(q != c);
                            }
                        } else {
                            assert(before.conns().contains_key(u));
                            assert(frames_for(mid.conns()[u].kind, actions.peer_messages@, msgs.take(j + 1)) =~= frames_for(
                                mid.conns()[u].kind,
                                actions.peer_messages@,
                                msgs.take(j as int),
                            ).push(framed(msgs[j as int].1@)));
                        }
                    }
                }
            }
            j = j + 1;
        }
        proof {
            assert(actions.client_messages@.take(j as int) =~= actions.client_messages@);
        }
        let ghost mid3 = *self;
        if actions.clear_timeouts {
            self.clear_consensus_timers();
        }
        let ghost mid4 = *self;
        proof {
            assert(mid3.reconnect_timers() == old(self).reconnect_timers());
            if actions.clear_timeouts {
                assert(mid4.reconnect_timers() =~= old(self).reconnect_timers());
                assert forall|k: ConsensusTimeout| !(#[trigger] mid4.has_consensus_timer(k)) by {}
            }
            assert(actions.timeouts@.take(0) =~= Seq::<ConsensusTimeout>::empty());
        }
        let mut n: usize = 0;
        while n < actions.timeouts.len()
            invariant
                n <= actions.timeouts@.len(),
                self.wf(),
                self.same_but_timers(&mid4),
                mid4.same_setup(old(self)),
                self.reconnect_timers() == old(self).reconnect_timers(),
                forall|k: ConsensusTimeout| #[trigger]
                    self.has_consensus_timer(k) <==> actions.timeouts@.take(n as int).contains(k) || (!actions.clear_timeouts
                        && old(self).has_consensus_timer(k)),
                forall|h: usize| #[trigger]
                    self.timers().contains_key(h) ==> match self.timers()[h].payload {
                        ServerTimeout::Consensus(k) => if actions.timeouts@.take(n as int).contains(k) {
                            self.timers()[h] == old(self).consensus_timer_for(k)
                        } else {
                            old(self).timers().contains_key(h) && old(self).timers()[h] == self.timers()[h]
                        },
                        ServerTimeout::Reconnect(_) => true,
                    },
                actions.timeouts@.len() == 0 ==> *self == mid4,
            decreases actions.timeouts@.len() - n,
        {
            let k = actions.timeouts[n];
            let ghost before = *self;
            self.arm_consensus_timer(k);
            proof {
                let ts = actions.timeouts@;
                assert(ts.take(n + 1) =~= ts.take(n as int).push(k));
                assert(self.reconnect_timers() =~= before.reconnect_timers());
                assert forall|k2: ConsensusTimeout| #[trigger] self.has_consensus_timer(k2) <==> ts.take(n + 1).contains(k2) || (!actions.clear_timeouts
                        && old(self).has_consensus_timer(k2)) by {
                    if k2 != k {
                        if ts.take(n + 1).contains(k2) {
                            let x = choose|x: int| 0 <= x < n + 1 && #[trigger] ts.take(n + 1)[x] == k2;
                            assert(ts.take(n as int)[x] == k2);
                        }
                    } else {
                        assert(ts.take(n + 1)[n as int] == k);
                    }
                }
                assert forall|h: usize| #[trigger] self.timers().contains_key(h) implies match self.timers()[h].payload {
                        ServerTimeout::Consensus(k2) => if ts.take(n + 1).contains(k2) {
                            self.timers()[h] == old(self).consensus_timer_for(k2)
                        } else {
                            old(self).timers().contains_key(h) && old(self).timers()[h] == self.timers()[h]
                        },
                        ServerTimeout::Reconnect(_) => true,
                    } by {
                    if let ServerTimeout::Consensus(k2) = self.timers()[h].payload {
                        if k2 == k {
                            assert(ts.take(n + 1)[n as int] == k);
                            if before.timers_without_kind(k).contains_key(h) {
                                assert(false);
                            }
                        } else {
                            assert(before.timers().contains_key(h));
                            if ts.take(n + 1).contains(k2) {
                                let x = choose|x: int| 0 <= x < n + 1 && #[trigger] ts.take(n + 1)[x] == k2;
                                assert(ts.take(n as int)[x] == k2);
                            } else {
                                if ts.take(n as int).contains(k2) {
                                    let x = choose|x: int| 0 <= x < n && #[trigger] ts.take(n as int)[x] == k2;
                                    assert(ts.take(n + 1)[x] == k2);
                                }
                            }
                        }
                    }
                }
            }
            n = n + 1;
        }
        proof {
            assert(actions.timeouts@.take(n as int) =~= actions.timeouts@);
            if actions.is_empty() {
                assert(self.conns() == old(self).conns());
            }
        }
        rearm
    }

    /// Prepares the first dial of every peer: each peer connection's queue
    /// starts with this server's preamble. Returns the handles to dial, in
    /// configuration order.
    pub fn start_loop(&mut self) -> (r: Vec<usize>)
        requires
            old(self).wf(),
        ensures
            final(self).wf(),
            final(self).same_but_queues(old(self)),
            r@.len() == old(self).peer_list().len(),
            forall|i: int| 0 <= i < r@.len() ==> #[trigger] r@[i] == old(self).peer_index()[old(self).peer_list()[i]],
            forall|t: usize| #[trigger]
                final(self).conns().contains_key(t) ==> final(self).conns()[t].queue() == (if old(self).conns()[t].kind is Peer {
                    seq![server_preamble_frame(old(self).self_id(), old(self).listen_addr())] + old(self).conns()[t].queue()
                } else {
                    old(self).conns()[t].queue()
                }),
    {
        let mut tokens: Vec<usize> = Vec::new();
        let mut i: usize = 0;
        while i < self.peer_ids.len()
            invariant
                i <= self.peer_ids@.len(),
                self.wf(),
                self.same_but_queues(old(self)),
                self.peer_ids == old(self).peer_ids,
                tokens@.len() == i,
                forall|j: int| 0 <= j < i ==> #[trigger] tokens@[j] == self.peer_tokens@[self.peer_ids@[j]],
                forall|t: usize| #[trigger]
                    self.conns().contains_key(t) ==> self.conns()[t].queue() == (if self.conns()[t].kind matches ConnectionKind::Peer(p)
                        && self.peer_ids@.subrange(0, i as int).contains(p) {
                        seq![server_preamble_frame(old(self).self_id(), old(self).listen_addr())] + old(self).conns()[t].queue()
                    } else {
                        old(self).conns()[t].queue()
                    }),
            decreases self.peer_ids@.len() - i,
        {
            let p = self.peer_ids[i];
            proof {
                assert(self.peer_ids@.contains(p));
            }
            let t = *self.peer_tokens.get(&p).unwrap();
            let frame = self.preamble_frame();
            let ghost conns0 = self.conns();
            let ghost before = *self;
            let c = slab_get_mut(&mut self.connections, t);
            c.restart_with(frame);
            tokens.push(t);
            i = i + 1;
            proof {
                lemma_update_conn(before, *self, t);
                let conns = self.conns();
                assert forall|u: usize| #[trigger] conns.contains_key(u) implies conns[u].queue() == (if conns[u].kind matches ConnectionKind::Peer(q)
                        && self.peer_ids@.subrange(0, i as int).contains(q) {
                        seq![server_preamble_frame(old(self).self_id(), old(self).listen_addr())] + old(self).conns()[u].queue()
                    } else {
                        old(self).conns()[u].queue()
                    }) by {
                    assert(conns0.contains_key(u));
                    if let ConnectionKind::Peer(q) = conns[u].kind {
                        if q == p {
                            assert(self.peer_ids@.subrange(0, i as int)[i - 1] == p);
                            assert(!self.peer_ids@.subrange(0, i - 1).contains(p)) by {
                                if self.peer_ids@.subrange(0, i - 1).contains(p) {
                                    let k = choose|k: int| 0 <= k < i - 1 && #[trigger] self.peer_ids@.subrange(0, i - 1)[k] == p;
                                    assert(self.peer_ids@[k] == self.peer_ids@[i - 1]);
                                }
                            }
                        } else {
                            if self.peer_ids@.subrange(0, i as int).contains(q) {
                                let k = choose|k: int| 0 <= k < i && #[trigger] self.peer_ids@.subrange(0, i as int)[k] == q;
                                assert(self.peer_ids@.subrange(0, i - 1)[k] == q);
                            }
                            if self.peer_ids@.subrange(0, i - 1).contains(q) {
                                let k = choose|k: int| 0 <= k < i - 1 && #[trigger] self.peer_ids@.subrange(0, i - 1)[k] == q;
                                assert(self.peer_ids@.subrange(0, i as int)[k] == q);
                            }
                        }
                    }
                }
            }
        }
        proof {
            assert(self.peer_ids@.subrange(0, i as int) =~= self.peer_ids@);
            assert forall|t: usize| #[trigger] self.conns().contains_key(t) implies self.conns()[t].queue() == (if old(self).conns()[t].kind is Peer {
                    seq![server_preamble_frame(old(self).self_id(), old(self).listen_addr())] + old(self).conns()[t].queue()
                } else {
                    old(self).conns()[t].queue()
                }) by {
                if let ConnectionKind::Peer(q) = self.conns()[t].kind {
                    assert(self.peer_tokens@.contains_key(q));
                }
            }
        }
        tokens
    }

    /// Records that `n` bytes of the head frame of the connection under
    /// `token`, from its cursor on, were written to the socket. Returns true
    /// iff its queue is now empty, so that write interest can be dropped.
    pub fn on_written(&mut self, token: usize, n: usize) -> (drained: bool)
        requires
            old(self).wf(),
            old(self).conns().contains_key(token),
            old(self).conns()[token].queue().len() > 0,
            n <= old(self).conns()[token].queue()[0].len() - old(self).conns()[token].cursor,
        ensures
            final(self).wf(),
            final(self).same_but_queues(old(self)),
            forall|t: usize| #[trigger]
                final(self).conns().contains_key(t) && t != token ==> final(self).conns()[t] == old(self).conns()[t],
            old(self).conns()[token].cursor + n == old(self).conns()[token].queue()[0].len() ==> final(self).conns()[token].queue()
                == old(self).conns()[token].queue().drop_first() && final(self).conns()[token].cursor == 0,
            old(self).conns()[token].cursor + n < old(self).conns()[token].queue()[0].len() ==> final(self).conns()[token].queue()
                == old(self).conns()[token].queue() && final(self).conns()[token].cursor == old(self).conns()[token].cursor + n,
            drained == (final(self).conns()[token].queue().len() == 0),
    {
        let ghost before = *self;
        let c = slab_get_mut(&mut self.connections, token);
        let r = c.advance(n);
        proof {
            lemma_update_conn(before, *self, token);
        }
        r
    }

    /// Takes bytes read from the socket of the connection under `token` and
    /// returns the messages now complete, in order. Fails with
    /// `MalformedFrame` where a frame is malformed; the caller then resets the
    /// connection.
    pub fn readable(&mut self, token: usize, bytes: &Vec<u8>) -> (r: Result<Vec<Vec<u8>>, RaftError>)
        requires
            old(self).wf(),
            old(self).conns().contains_key(token),
        ensures
            final(self).wf(),
            final(self).same_but_queues(old(self)),
            forall|t: usize| #[trigger]
                final(self).conns().contains_key(t) ==> final(self).conns()[t].queue() == old(self).conns()[t].queue(),
            r is Err <==> split_frames(old(self).conns()[token].inbound@ + bytes@) is None,
            r is Err ==> r == Err::<Vec<Vec<u8>>, RaftError>(RaftError::MalformedFrame),
            r matches Ok(fs) ==> split_frames(old(self).conns()[token].inbound@ + bytes@) == Some(
                (fs@.map_values(|f: Vec<u8>| f@), final(self).conns()[token].inbound@),
            ),
    {
        let ghost before = *self;
        let c = slab_get_mut(&mut self.connections, token);
        let r = c.receive(bytes);
        proof {
            lemma_update_conn(before, *self, token);
        }
        match r {
            None => Err(RaftError::MalformedFrame),
            Some(fs) => Ok(fs),
        }
    }

    /// A builder for a server with id `id` listening on `addr`, with default
    /// settings.
    pub fn new(id: u64, addr: Vec<u8>) -> (r: ServerBuilder)
        ensures
            r.id == id,
            r.addr@ == addr@,
            r.peers is None,
            r.max_connections == 128,
            r.election_min_millis == 150,
            r.election_max_millis == 350,
            r.heartbeat_millis == 60,
    {
        ServerBuilder::new(id, addr)
    }
}

/// The settings of a server to be built; each has a default.
pub struct ServerBuilder {
    pub id: u64,
    pub addr: Vec<u8>,
    pub peers: Option<Vec<(u64, Vec<u8>)>>,
    pub max_connections: usize,
    pub election_min_millis: u64,
    pub election_max_millis: u64,
    pub heartbeat_millis: u64,
}

impl ServerBuilder {
    /// No peers, at most 128 connections, elections between 150 and 350
    /// milliseconds, a heartbeat every 60 milliseconds.
    fn new(id: u64, addr: Vec<u8>) -> (r: ServerBuilder)
        ensures
            r.id == id,
            r.addr@ == addr@,
            r.peers is None,
            r.max_connections == 128,
            r.election_min_millis == 150,
            r.election_max_millis == 350,
            r.heartbeat_millis == 60,
    {
        ServerBuilder {
            id,
            addr,
            peers: None,
            max_connections: 128,
            election_min_millis: 150,
            election_max_millis: 350,
            heartbeat_millis: 60,
        }
    }

    /// The peers, as configured; none where none were given.
    pub open spec fn peer_seq(&self) -> Seq<(u64, Vec<u8>)> {
        match self.peers {
            Some(p) => p@,
            None => Seq::empty(),
        }
    }

    /// Builds the server: see `Server::finalize`.
    pub fn finalize(self) -> (r: Result<Server, RaftError>)
        requires
            self.addr@.len() <= MAX_ADDR_LEN,
        ensures
            r is Ok <==> valid_peers(self.id, self.peer_seq()) && self.peer_seq().len() <= self.max_connections,
            !valid_peers(self.id, self.peer_seq()) <==> r == Err::<Server, RaftError>(RaftError::InvalidPeerSet),
            valid_peers(self.id, self.peer_seq()) && self.peer_seq().len() > self.max_connections <==> r
                == Err::<Server, RaftError>(RaftError::ConnectionLimitReached),
            r matches Ok(s) ==> {
                &&& s.wf()
                &&& s.self_id() == self.id
                &&& s.listen_addr() == self.addr@
                &&& s.timeout_config() == (TimeoutConfiguration {
                    election_min_ms: self.election_min_millis,
                    election_max_ms: self.election_max_millis,
                    heartbeat_ms: self.heartbeat_millis,
                })
                &&& s.capacity() == self.max_connections
                &&& s.peer_list() == self.peer_seq().map_values(|e: (u64, Vec<u8>)| e.0)
                &&& forall|i: int| #![trigger self.peer_seq()[i]]
                    0 <= i < self.peer_seq().len() ==> {
                        &&& s.peer_index().contains_key(self.peer_seq()[i].0)
                        &&& s.conns()[s.peer_index()[self.peer_seq()[i].0]].kind == ConnectionKind::Peer(
                            self.peer_seq()[i].0,
                        )
                        &&& s.conns()[s.peer_index()[self.peer_seq()[i].0]].addr@ == self.peer_seq()[i].1@
                        &&& s.conns()[s.peer_index()[self.peer_seq()[i].0]].queue().len() == 0
                    }
                &&& s.conns().len() == self.peer_seq().len()
                &&& s.client_index().is_empty()
                &&& s.reconnecting().is_empty()
                &&& s.consensus_timers().len() == 0
                &&& s.timers().is_empty()
            },
    {
        let peers = match self.peers {
            Some(p) => p,
            None => Vec::new(),
        };
        Server::finalize(
            self.id,
            self.addr,
            peers,
            self.election_min_millis,
            self.election_max_millis,
            self.heartbeat_millis,
            self.max_connections,
        )
    }

    pub fn with_max_connections(self, count: usize) -> (r: ServerBuilder)
        ensures
            r == (ServerBuilder { max_connections: count, ..self }),
    {
        ServerBuilder { max_connections: count, ..self }
    }

    pub fn with_election_min_millis(self, timeout: u64) -> (r: ServerBuilder)
        ensures
            r == (ServerBuilder { election_min_millis: timeout, ..self }),
    {
        ServerBuilder { election_min_millis: timeout, ..self }
    }

    pub fn with_election_max_millis(self, timeout: u64) -> (r: ServerBuilder)
        ensures
            r == (ServerBuilder { election_max_millis: timeout, ..self }),
    {
        ServerBuilder { election_max_millis: timeout, ..self }
    }

    pub fn with_heartbeat_millis(self, timeout: u64) -> (r: ServerBuilder)
        ensures
            r == (ServerBuilder { heartbeat_millis: timeout, ..self }),
    {
        ServerBuilder { heartbeat_millis: timeout, ..self }
    }

    pub fn with_peers(self, peers: Vec<(u64, Vec<u8>)>) -> (r: ServerBuilder)
        ensures
            r == (ServerBuilder { peers: Some(peers), ..self }),
    {
        ServerBuilder { peers: Some(peers), ..self }
    }
}

/// A built server has one peer index entry per configured peer, and no other;
/// no peer is configured twice, and the server itself is no peer.
pub proof fn lemma_peer_index_matches_peers(s: &Server)
    requires
        s.wf(),
    ensures
        s.peer_list().no_duplicates(),
        !s.peer_list().contains(s.self_id()),
        forall|p: u64| #[trigger] s.peer_index().contains_key(p) <==> s.peer_list().contains(p),
        forall|p: u64| #[trigger]
            s.peer_index().contains_key(p) ==> s.conns().contains_key(s.peer_index()[p])
                && s.conns()[s.peer_index()[p]].kind == ConnectionKind::Peer(p),
{
}

/// At most one connection stands for a given peer, and at most one for a
/// given client.
pub proof fn lemma_one_connection_per_identity(s: &Server, t1: usize, t2: usize)
    requires
        s.wf(),
        s.conns().contains_key(t1),
        s.conns().contains_key(t2),
        s.conns()[t1].kind == s.conns()[t2].kind,
        !(s.conns()[t1].kind is Unknown),
    ensures
        t1 == t2,
{
    assert(s.conns().contains_key(t1));
    assert(s.conns().contains_key(t2));
}

/// At most one live timer carries a given consensus timeout.
pub proof fn lemma_one_timer_per_consensus_timeout(s: &Server, k: ConsensusTimeout, h1: usize, h2: usize)
    requires
        s.wf(),
        s.timers().contains_key(h1),
        s.timers().contains_key(h2),
        s.timers()[h1].payload == ServerTimeout::Consensus(k),
        s.timers()[h2].payload == ServerTimeout::Consensus(k),
    ensures
        h1 == h2,
{
    assert(s.timers().contains_key(h1));
    assert(s.timers().contains_key(h2));
    let ct = s.consensus_timers();
    let i = choose|i: int| 0 <= i < ct.len() && #[trigger] ct[i] == (k, h1);
    let j = choose|j: int| 0 <= j < ct.len() && #[trigger] ct[j] == (k, h2);
    assert(ct[i].0 == ct[j].0);
}

/// Changing the connection under `token` into a well-formed one of the same
/// kind keeps the invariant.
proof fn lemma_update_conn(before: Server, after: Server, token: usize)
    requires
        before.wf(),
        before.conns().contains_key(token),
        after.conns() == before.conns().insert(token, after.conns()[token]),
        after.conns()[token].wf(),
        after.conns()[token].kind == before.conns()[token].kind,
        after.id == before.id,
        after.addr == before.addr,
        after.peer_ids == before.peer_ids,
        after.peer_tokens == before.peer_tokens,
        after.client_tokens == before.client_tokens,
        after.consensus_timeouts == before.consensus_timeouts,
        after.reconnection_timeouts == before.reconnection_timeouts,
        after.timers == before.timers,
    ensures
        after.wf(),
        after.conns().dom() == before.conns().dom(),
{
    let conns = after.conns();
    assert(conns.dom() =~= before.conns().dom());
    assert forall|u: usize| #[trigger] conns.contains_key(u) implies {
        &&& conns[u].wf()
        &&& conns[u].kind matches ConnectionKind::Peer(q) ==> after.peer_tokens@.contains_key(q)
            && after.peer_tokens@[q] == u
        &&& conns[u].kind matches ConnectionKind::Client(cl) ==> after.client_tokens@.contains_key(cl)
            && after.client_tokens@[cl] == u
    } by {
        assert(before.conns().contains_key(u));
    }
}

/// No peer is `id`, and no peer id appears twice.
pub open spec fn valid_peers(id: u64, peers: Seq<(u64, Vec<u8>)>) -> bool {
    &&& forall|i: int| 0 <= i < peers.len() ==> #[trigger] peers[i].0 != id
    &&& forall|i: int, j: int|
        0 <= i < j < peers.len() ==> #[trigger] peers[i].0 != #[trigger] peers[j].0
}

fn check_peers(id: u64, peers: &Vec<(u64, Vec<u8>)>) -> (r: bool)
    ensures
        r == valid_peers(id, peers@),
{
    let mut i: usize = 0;
    while i < peers.len()
        invariant
            i <= peers@.len(),
            forall|k: int| 0 <= k < i ==> #[trigger] peers@[k].0 != id,
            forall|k: int, l: int| 0 <= k < l < i ==> #[trigger] peers@[k].0 != #[trigger] peers@[l].0,
        decreases peers@.len() - i,
    {
        if peers[i].0 == id {
            return false;
        }
        let mut j: usize = 0;
        while j < i
            invariant
                i < peers@.len(),
                j <= i,
                forall|k: int| 0 <= k < j ==> #[trigger] peers@[k].0 != peers@[i as int].0,
            decreases i - j,
        {
            if peers[j].0 == peers[i].0 {
                return false;
            }
            j = j + 1;
        }
        i = i + 1;
    }
    true
}

} // verus!
