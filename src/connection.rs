use vstd::prelude::*;
use crate::codec::{decode_frames, split_frames};

verus! {

/// What is known of the remote end of a connection.
#[derive(Clone, Copy, Debug, PartialEq, Eq, Structural)]
pub enum ConnectionKind {
    /// Accepted, no preamble received yet.
    Unknown,
    /// A replica, by its server id.
    Peer(u64),
    /// A client session, by its client id.
    Client(u128),
}

/// One remote endpoint: its kind, the address used to reach it again (in text
/// form), the bytes received after the last complete frame, and the queue of
/// framed messages waiting to be written, with the number of bytes of the head
/// frame already written.
pub struct Connection {
    pub kind: ConnectionKind,
    pub addr: Vec<u8>,
    pub inbound: Vec<u8>,
    pub outbox: Vec<Vec<u8>>,
    pub cursor: usize,
}

impl Connection {
    /// The queue of frames, as byte sequences.
    pub open spec fn queue(&self) -> Seq<Seq<u8>> {
        self.outbox@.map_values(|m: Vec<u8>| m@)
    }

    /// No queued frame is empty; the write cursor stays inside the head frame;
    /// an empty queue has no partial progress.
    pub open spec fn wf(&self) -> bool {
        &&& (self.outbox@.len() == 0 ==> self.cursor == 0)
        &&& (self.outbox@.len() > 0 ==> self.cursor < self.outbox@[0]@.len())
        &&& forall|i: int| 0 <= i < self.outbox@.len() ==> #[trigger] self.outbox@[i]@.len() > 0
    }

    /// A connection to a configured peer, dialled by this server.
    pub fn peer(id: u64, addr: Vec<u8>) -> (r: Connection)
        ensures
            r.kind == ConnectionKind::Peer(id),
            r.addr@ == addr@,
            r.queue() == Seq::<Seq<u8>>::empty(),
            r.inbound@ == Seq::<u8>::empty(),
            r.wf(),
    {
        Connection {
            kind: ConnectionKind::Peer(id),
            addr,
            inbound: Vec::new(),
            outbox: Vec::new(),
            cursor: 0,
        }
    }

    /// A connection accepted on the listening socket, of unknown kind.
    pub fn unknown(addr: Vec<u8>) -> (r: Connection)
        ensures
            r.kind == ConnectionKind::Unknown,
            r.addr@ == addr@,
            r.queue() == Seq::<Seq<u8>>::empty(),
            r.inbound@ == Seq::<u8>::empty(),
            r.wf(),
    {
        Connection {
            kind: ConnectionKind::Unknown,
            addr,
            inbound: Vec::new(),
            outbox: Vec::new(),
            cursor: 0,
        }
    }

    /// Appends a frame at the tail of the queue. Returns true iff the queue was
    /// empty before, that is, iff write interest must now be added. An empty
    /// frame carries nothing to write and is not queued.
    pub fn enqueue(&mut self, frame: Vec<u8>) -> (needs_rearm: bool)
        requires
            old(self).wf(),
        ensures
            final(self).wf(),
            final(self).kind == old(self).kind,
            final(self).addr == old(self).addr,
            frame@.len() > 0 ==> final(self).queue() == old(self).queue().push(frame@),
            frame@.len() == 0 ==> final(self).queue() == old(self).queue(),
            final(self).cursor == old(self).cursor,
            needs_rearm == (frame@.len() > 0 && old(self).queue().len() == 0),
    {
        if frame.len() == 0 {
            return false;
        }
        let was_empty = self.outbox.len() == 0;
        self.outbox.push(frame);
        proof {
            assert(self.queue() =~= old(self).queue().push(frame@));
        }
        was_empty
    }

    /// True iff bytes are waiting to be written.
    pub fn wants_write(&self) -> (r: bool)
        ensures
            r == (self.queue().len() > 0),
    {
        self.outbox.len() > 0
    }

    /// Records that `n` bytes of the head frame, from the cursor on, were
    /// written. A frame written to its end leaves the queue. Returns true iff
    /// the queue is now empty.
    pub fn advance(&mut self, n: usize) -> (drained: bool)
        requires
            old(self).wf(),
            old(self).queue().len() > 0,
            n <= old(self).queue()[0].len() - old(self).cursor,
        ensures
            final(self).wf(),
            final(self).kind == old(self).kind,
            final(self).addr == old(self).addr,
            old(self).cursor + n == old(self).queue()[0].len() ==> final(self).queue()
                == old(self).queue().drop_first() && final(self).cursor == 0,
            old(self).cursor + n < old(self).queue()[0].len() ==> final(self).queue()
                == old(self).queue() && final(self).cursor == old(self).cursor + n,
            drained == (final(self).queue().len() == 0),
    {
        let head_len = self.outbox[0].len();
        if self.cursor + n == head_len {
            self.outbox.remove(0);
            self.cursor = 0;
            proof {
                assert(self.queue() =~= old(self).queue().drop_first());
            }
        } else {
            self.cursor = self.cursor + n;
        }
        self.outbox.len() == 0
    }

    /// Drops every queued frame, partial progress included.
    pub fn clear_outbox(&mut self)
        ensures
            final(self).wf(),
            final(self).kind == old(self).kind,
            final(self).addr == old(self).addr,
            final(self).queue() == Seq::<Seq<u8>>::empty(),
    {
        self.outbox = Vec::new();
        self.cursor = 0;
        proof {
            assert(self.queue() =~= Seq::<Seq<u8>>::empty());
        }
    }

    /// Puts `frame` at the head of the queue, ahead of what was buffered, with
    /// no partial progress: what a fresh socket must carry first.
    pub fn restart_with(&mut self, frame: Vec<u8>)
        requires
            frame@.len() > 0,
            old(self).wf(),
        ensures
            final(self).wf(),
            final(self).kind == old(self).kind,
            final(self).addr == old(self).addr,
            final(self).queue() == seq![frame@] + old(self).queue(),
            final(self).cursor == 0,
    {
        self.outbox.insert(0, frame);
        self.cursor = 0;
        proof {
            assert(self.queue() =~= seq![frame@] + old(self).queue());
        }
    }

    /// Drops the queue and the bytes received: the state of a connection whose
    /// socket is gone.
    pub fn reset(&mut self)
        ensures
            final(self).wf(),
            final(self).kind == old(self).kind,
            final(self).addr == old(self).addr,
            final(self).queue() == Seq::<Seq<u8>>::empty(),
            final(self).inbound@ == Seq::<u8>::empty(),
    {
        self.clear_outbox();
        self.inbound = Vec::new();
    }

    /// Takes bytes read from the socket: returns the frames that are now
    /// complete, in order, and keeps the bytes after them. `None` where a frame
    /// is malformed.
    pub fn receive(&mut self, bytes: &Vec<u8>) -> (r: Option<Vec<Vec<u8>>>)
        requires
            old(self).wf(),
        ensures
            final(self).wf(),
            final(self).kind == old(self).kind,
            final(self).addr == old(self).addr,
            final(self).outbox == old(self).outbox,
            final(self).cursor == old(self).cursor,
            r is None <==> split_frames(old(self).inbound@ + bytes@) is None,
            r matches Some(fs) ==> split_frames(old(self).inbound@ + bytes@) == Some(
                (fs@.map_values(|f: Vec<u8>| f@), final(self).inbound@),
            ),
    {
        let mut i: usize = 0;
        while i < bytes.len()
            invariant
                i <= bytes@.len(),
                self.kind == old(self).kind,
                self.addr == old(self).addr,
                self.outbox == old(self).outbox,
                self.cursor == old(self).cursor,
                self.inbound@ == old(self).inbound@ + bytes@.subrange(0, i as int),
            decreases bytes@.len() - i,
        {
            self.inbound.push(bytes[i]);
            i = i + 1;
            assert(self.inbound@ =~= old(self).inbound@ + bytes@.subrange(0, i as int));
        }
        assert(bytes@.subrange(0, i as int) =~= bytes@);
        match decode_frames(&self.inbound) {
            None => None,
            Some((frames, rest)) => {
                self.inbound = rest;
                Some(frames)
            },
        }
    }
}

} // verus!
