use crate::buffer::{Buffer, BufferError};
use crate::frame::{first_frame_len, first_packet, frame_prefix, has_frame, parse_frames, PacketModel};
use crate::packetproc::PacketProcessingInfo;
use std::collections::{HashMap, VecDeque};
use vstd::prelude::*;

verus! {

broadcast use vstd::std_specs::vecdeque::group_vec_dequeue_axioms, vstd::std_specs::hash::group_hash_axioms;

/// Identifier reserved for the listening socket.
pub const SERVER_TOKEN: usize = 0;

/// Largest number of bytes taken from a socket in one read, or handed to it
/// in one write.
pub const CHUNK_SIZE: usize = 1024;

/// The readiness events watched for, or reported on, a socket.
#[derive(Debug, Clone, Copy, PartialEq, Eq, Structural)]
pub struct EventSet {
    pub readable: bool,
    pub writable: bool,
}

impl EventSet {
    pub fn all() -> (r: EventSet)
        ensures
            r == (EventSet { readable: true, writable: true }),
    {
        EventSet { readable: true, writable: true }
    }
}

/// A packet: its 16-bit opcode and its body.
pub struct FiestaPacket {
    pub header: u16,
    pub data: Buffer,
}

impl View for FiestaPacket {
    type V = PacketModel;

    open spec fn view(&self) -> PacketModel {
        (self.header, self.data@)
    }
}

impl FiestaPacket {
    pub fn new(header: u16) -> (r: FiestaPacket)
        ensures
            r@ == (header, Seq::<u8>::empty()),
    {
        FiestaPacket { header, data: Buffer::new() }
    }
}

/// The bytes that a write of `sent` bytes leaves queued out of `pending`:
/// a positive count consumes that many bytes; anything else consumes none.
pub open spec fn after_send(pending: Seq<u8>, sent: Option<usize>) -> Seq<u8> {
    match sent {
        Some(n) => if 0 < n <= pending.len() {
            pending.skip(n as int)
        } else {
            pending
        },
        None => pending,
    }
}

/// The bytes that a write of `sent` bytes puts on the wire out of `pending`.
pub open spec fn sent_bytes(pending: Seq<u8>, sent: usize) -> Seq<u8> {
    if 0 < sent <= pending.len() {
        pending.take(sent as int)
    } else {
        Seq::empty()
    }
}

/// The bytes put on the wire, in order, and the bytes still queued, after
/// writable events whose writes take `sends[0]`, `sends[1]`, ... bytes.
pub open spec fn drain(pending: Seq<u8>, sends: Seq<usize>) -> (Seq<u8>, Seq<u8>)
    decreases sends.len(),
{
    if sends.len() == 0 {
        (Seq::empty(), pending)
    } else {
        let rest = drain(after_send(pending, Some(sends[0])), sends.drop_first());
        (sent_bytes(pending, sends[0]) + rest.0, rest.1)
    }
}

/// The sum of the write counts.
pub open spec fn total_sent(sends: Seq<usize>) -> nat
    decreases sends.len(),
{
    if sends.len() == 0 {
        0
    } else {
        sends[0] as nat + total_sent(sends.drop_first())
    }
}

/// Whatever the writes take, the bytes put on the wire followed by those still
/// queued are the queued bytes, in order: none is lost or sent twice.
pub proof fn lemma_drain_keeps_order(pending: Seq<u8>, sends: Seq<usize>)
    ensures
        drain(pending, sends).0 + drain(pending, sends).1 == pending,
    decreases sends.len(),
{
    if sends.len() == 0 {
        assert(Seq::<u8>::empty() + pending =~= pending);
    } else {
        let n = sends[0];
        let next = after_send(pending, Some(n));
        lemma_drain_keeps_order(next, sends.drop_first());
        let rest = drain(next, sends.drop_first());
        assert(sent_bytes(pending, n) + rest.0 + rest.1 =~= sent_bytes(pending, n) + (rest.0 + rest.1));
        assert(sent_bytes(pending, n) + next =~= pending);
    }
}

/// Writes that each take at least one byte, and that together take as many
/// bytes as were queued, send every queued byte in order and leave the queue
/// empty.
pub proof fn lemma_drain_empties(pending: Seq<u8>, sends: Seq<usize>)
    requires
        forall|i: int| 0 <= i < sends.len() ==> #[trigger] sends[i] > 0,
        total_sent(sends) == pending.len(),
    ensures
        drain(pending, sends) == (pending, Seq::<u8>::empty()),
    decreases sends.len(),
{
    if sends.len() == 0 {
        assert(pending =~= Seq::<u8>::empty());
    } else {
        let n = sends[0];
        assert(n > 0);
        let tail = sends.drop_first();
        assert forall|i: int| 0 <= i < tail.len() implies #[trigger] tail[i] > 0 by {
            assert(tail[i] == sends[i + 1]);
        }
        let next = after_send(pending, Some(n));
        assert(next == pending.skip(n as int));
        lemma_drain_empties(next, tail);
        assert(pending.take(n as int) + next =~= pending);
    }
}

/// Whether a read outcome ends the connection: an I/O error (`None`) or a read
/// of zero bytes.
pub open spec fn read_ends(received: Option<&[u8]>) -> bool {
    match received {
        Some(d) => d@.len() == 0,
        None => true,
    }
}

/// Whether a write outcome ends the connection: bytes were pending and the
/// write failed (`None`) or took zero bytes.
pub open spec fn write_ends(pending: Seq<u8>, sent: Option<usize>) -> bool {
    pending.len() > 0 && match sent {
        Some(n) => n == 0,
        None => true,
    }
}

/// The bytes that a successful read brings.
pub open spec fn received_bytes(received: Option<&[u8]>) -> Seq<u8> {
    match received {
        Some(d) => d@,
        None => Seq::empty(),
    }
}

/// One connection's state: its unread and unsent bytes, the packets decoded
/// from it and not yet taken, its liveness and the events watched for it.
pub struct FiestaNetworkClient {
    read_buffer: Buffer,
    write_buffer: Buffer,
    packet_queue: VecDeque<FiestaPacket>,
    is_alive: bool,
    interest: EventSet,
    id: usize,
}

impl FiestaNetworkClient {
    /// Bytes received and not yet framed.
    pub closed spec fn inbound(&self) -> Seq<u8> {
        self.read_buffer@
    }

    /// Bytes queued for sending.
    pub closed spec fn outbound(&self) -> Seq<u8> {
        self.write_buffer@
    }

    /// Decoded packets not yet taken, oldest first.
    pub closed spec fn queued(&self) -> Seq<PacketModel> {
        self.packet_queue@.map_values(|p: FiestaPacket| p@)
    }

    pub closed spec fn live(&self) -> bool {
        self.is_alive
    }

    pub closed spec fn watched(&self) -> EventSet {
        self.interest
    }

    pub closed spec fn ident(&self) -> usize {
        self.id
    }

    /// A connection always watches for readability.
    pub open spec fn wf(&self) -> bool {
        self.watched().readable
    }

    pub fn new(id: usize) -> (r: FiestaNetworkClient)
        ensures
            r.inbound() == Seq::<u8>::empty(),
            r.outbound() == Seq::<u8>::empty(),
            r.queued() == Seq::<PacketModel>::empty(),
            r.live(),
            r.watched() == (EventSet { readable: true, writable: true }),
            r.ident() == id,
            r.wf(),
    {
        let r = FiestaNetworkClient {
            read_buffer: Buffer::new(),
            write_buffer: Buffer::new(),
            packet_queue: VecDeque::new(),
            is_alive: true,
            interest: EventSet::all(),
            id,
        };
        assert(r.queued() =~= Seq::<PacketModel>::empty());
        r
    }

    /// Body length and length-field width of the next frame, read without
    /// consuming anything.
    fn get_next_size(&self) -> (r: Result<(u16, usize), BufferError>)
        ensures
            match frame_prefix(self.inbound()) {
                Some((body, width)) => r == Ok::<(u16, usize), BufferError>(
                    (body as u16, width as usize),
                ),
                None => r is Err,
            },
            r is Ok ==> r->Ok_0.1 == 1 || r->Ok_0.1 == 3,
    {
        let small = self.read_buffer.peek_u8(0);
        match small {
            Ok(s) => {
                if s > 0 {
                    Ok((s as u16, 1))
                } else {
                    match self.read_buffer.peek_u16(1) {
                        Ok(big) => Ok((big, 3)),
                        Err(e) => Err(e),
                    }
                }
            },
            Err(e) => Err(e),
        }
    }

    /// Whether the unread bytes start with a complete frame.
    pub fn can_read_next_packet(&self) -> (r: bool)
        ensures
            r == has_frame(self.inbound()),
    {
        match self.get_next_size() {
            Ok((size, width)) => self.read_buffer.bytes_remaining() >= size as usize + 2 + width,
            Err(_) => false,
        }
    }

    /// Moves the frame at the front of the unread bytes, if complete, to the
    /// packet queue.
    pub fn read_next_packet(&mut self)
        ensures
            has_frame(old(self).inbound()) ==> final(self).inbound() == old(self).inbound().skip(
                first_frame_len(old(self).inbound()) as int,
            ) && final(self).queued() == old(self).queued().push(first_packet(old(self).inbound())),
            !has_frame(old(self).inbound()) ==> final(self).inbound() == old(self).inbound()
                && final(self).queued() == old(self).queued(),
            final(self).outbound() == old(self).outbound(),
            final(self).live() == old(self).live(),
            final(self).watched() == old(self).watched(),
            final(self).ident() == old(self).ident(),
    {
        let ghost s = self.read_buffer@;
        match self.get_next_size() {
            Ok((size, width)) => {
                if self.read_buffer.bytes_remaining() < size as usize + 2 + width {
                    return;
                }
                let _ = self.read_buffer.advance_read(width);
                let header = self.read_buffer.read_u16();
                let body = self.read_buffer.read_bytes(size as usize);
                let mut packet = FiestaPacket::new(0);
                match (header, body) {
                    (Ok(h), Ok(b)) => {
                        packet.header = h;
                        packet.data.append(b.as_slice());
                    },
                    _ => {},
                }
                proof {
                    let w = width as int;
                    assert(s.skip(w).skip(2).skip(size as int) =~= s.skip(w + 2 + size));
                    assert(s.skip(w).skip(2).take(size as int) =~= s.subrange(w + 2, w + 2 + size));
                }
                self.packet_queue.push_back(packet);
                assert(self.queued() =~= old(self).queued().push(first_packet(s)));
            },
            Err(_) => {},
        }
    }

    /// The read step. `received` is the outcome of one read of the socket:
    /// the bytes read, or `None` on an I/O error. Bytes are appended to the
    /// unread ones and every complete frame is decoded; a zero-byte read or an
    /// error marks the connection dead and sets `disconnect`.
    pub fn readable(&mut self, received: Option<&[u8]>, disconnect: &mut bool)
        ensures
            !read_ends(received) ==> ({
                let parsed = parse_frames(old(self).inbound() + received_bytes(received));
                &&& final(self).inbound() == parsed.1
                &&& final(self).queued() == old(self).queued() + parsed.0
                &&& final(self).live() == old(self).live()
                &&& *final(disconnect) == *old(disconnect)
            }),
            read_ends(received) ==> final(self).inbound() == old(self).inbound()
                && final(self).queued() == old(self).queued() && !final(self).live()
                && *final(disconnect),
            final(self).outbound() == old(self).outbound(),
            final(self).watched() == old(self).watched(),
            final(self).ident() == old(self).ident(),
    {
        match received {
            Some(data) => {
                if data.len() > 0 {
                    self.read_buffer.append(data);
                } else {
                    self.set_alive(false);
                    *disconnect = true;
                    return;
                }
            },
            None => {
                self.set_alive(false);
                *disconnect = true;
                return;
            },
        }
        let ghost total = self.inbound();
        let ghost start = old(self).queued();
        proof {
            assert(start + Seq::<PacketModel>::empty() =~= start);
        }
        while self.can_read_next_packet()
            invariant
                self.queued() + parse_frames(self.inbound()).0 == start + parse_frames(total).0,
                parse_frames(self.inbound()).1 == parse_frames(total).1,
                self.outbound() == old(self).outbound(),
                self.live() == old(self).live(),
                self.watched() == old(self).watched(),
                self.ident() == old(self).ident(),
            decreases self.inbound().len(),
        {
            let ghost before = self.inbound();
            let ghost q = self.queued();
            self.read_next_packet();
            proof {
                let rest = parse_frames(self.inbound());
                assert(parse_frames(before).0 == seq![first_packet(before)] + rest.0);
                assert(q.push(first_packet(before)) + rest.0 =~= q + (seq![first_packet(before)]
                    + rest.0));
            }
        }
        proof {
            assert(self.queued() + Seq::<PacketModel>::empty() =~= self.queued());
        }
    }

    /// The bytes that the next write should hand to the socket: the first
    /// `CHUNK_SIZE` bytes queued for sending, or all of them if fewer.
    pub fn next_send_chunk(&self) -> (r: Vec<u8>)
        ensures
            r@ == self.outbound().take(
                if self.outbound().len() <= CHUNK_SIZE { self.outbound().len() as int } else { CHUNK_SIZE as int },
            ),
    {
        match self.write_buffer.peek_max(0, CHUNK_SIZE) {
            Ok(v) => v,
            Err(_) => Vec::new(),
        }
    }

    /// The flush step. `sent` is the outcome of writing `next_send_chunk()`:
    /// the number of bytes taken, or `None` on an I/O error. Nothing happens
    /// while no bytes are queued. Sent bytes leave the queue; a zero-byte
    /// write or an error marks the connection dead and sets `disconnect`.
    pub fn writeable(&mut self, sent: Option<usize>, disconnect: &mut bool)
        ensures
            final(self).outbound() == after_send(old(self).outbound(), sent),
            write_ends(old(self).outbound(), sent) ==> !final(self).live() && *final(disconnect),
            !write_ends(old(self).outbound(), sent) ==> final(self).live() == old(self).live()
                && *final(disconnect) == *old(disconnect),
            final(self).inbound() == old(self).inbound(),
            final(self).queued() == old(self).queued(),
            final(self).watched() == old(self).watched(),
            final(self).ident() == old(self).ident(),
    {
        if self.write_buffer.bytes_remaining() == 0 {
            return;
        }
        match sent {
            Some(n) => {
                if n > 0 {
                    let _ = self.write_buffer.advance_read(n);
                } else {
                    self.set_alive(false);
                    *disconnect = true;
                }
            },
            None => {
                self.set_alive(false);
                *disconnect = true;
            },
        }
    }

    pub fn alive(&self) -> (r: bool)
        ensures
            r == self.live(),
    {
        self.is_alive
    }

    pub fn id(&self) -> (r: usize)
        ensures
            r == self.ident(),
    {
        self.id
    }

    fn set_alive(&mut self, value: bool)
        ensures
            final(self).live() == value,
            final(self).inbound() == old(self).inbound(),
            final(self).outbound() == old(self).outbound(),
            final(self).queued() == old(self).queued(),
            final(self).watched() == old(self).watched(),
            final(self).ident() == old(self).ident(),
    {
        self.is_alive = value;
    }

    pub fn interest(&self) -> (r: EventSet)
        ensures
            r == self.watched(),
    {
        self.interest
    }

    /// Queues bytes for sending and adds writability to the watched events.
    pub fn append_send(&mut self, buffer: &[u8])
        ensures
            final(self).outbound() == old(self).outbound() + buffer@,
            final(self).watched() == (EventSet { readable: old(self).watched().readable, writable: true }),
            final(self).inbound() == old(self).inbound(),
            final(self).queued() == old(self).queued(),
            final(self).live() == old(self).live(),
            final(self).ident() == old(self).ident(),
    {
        self.write_buffer.append(buffer);
        if !self.interest.writable {
            self.interest = EventSet { readable: self.interest.readable, writable: true };
        }
    }

    /// Removes and returns the oldest decoded packet.
    pub fn pop_packet(&mut self) -> (r: Option<FiestaPacket>)
        ensures
            old(self).queued().len() == 0 ==> r is None && final(self).queued() == old(self).queued(),
            old(self).queued().len() > 0 ==> (r matches Some(p) && p@ == old(self).queued()[0]
                && final(self).queued() == old(self).queued().drop_first()),
            final(self).inbound() == old(self).inbound(),
            final(self).outbound() == old(self).outbound(),
            final(self).live() == old(self).live(),
            final(self).watched() == old(self).watched(),
            final(self).ident() == old(self).ident(),
    {
        let r = self.packet_queue.pop_front();
        assert(self.queued() =~= old(self).queued().drop_first() || old(self).queued().len() == 0);
        r
    }
}

/// A job's packet and connection identifier.
pub open spec fn job_view(j: PacketProcessingInfo) -> (PacketModel, usize) {
    (j.packet@, j.client)
}

/// The reactor's state: the registry of live connections by identifier, and
/// the last identifier handed out.
pub struct FiestaHandler {
    clients: HashMap<usize, FiestaNetworkClient>,
    token_count: usize,
}

impl FiestaHandler {
    pub closed spec fn registry(&self) -> Map<usize, FiestaNetworkClient> {
        self.clients@
    }

    pub closed spec fn last_token(&self) -> usize {
        self.token_count
    }

    /// Every registered connection has an identifier in `1..=last_token()`,
    /// knows it, watches for readability and has no packet left undispatched.
    pub open spec fn wf(&self) -> bool {
        forall|k: usize| #[trigger] self.registry().contains_key(k) ==> {
            &&& 1 <= k <= self.last_token()
            &&& self.registry()[k].wf()
            &&& self.registry()[k].ident() == k
            &&& self.registry()[k].queued() == Seq::<PacketModel>::empty()
        }
    }

    pub fn new() -> (r: FiestaHandler)
        ensures
            r.wf(),
            r.registry() == Map::<usize, FiestaNetworkClient>::empty(),
            r.last_token() == SERVER_TOKEN,
    {
        let r = FiestaHandler { clients: HashMap::new(), token_count: 0 };
        assert(r.registry() =~= Map::<usize, FiestaNetworkClient>::empty());
        r
    }

    fn get_next_token(&mut self) -> (r: usize)
        requires
            old(self).last_token() < usize::MAX,
        ensures
            r == old(self).last_token() + 1,
            final(self).last_token() == r,
            final(self).registry() == old(self).registry(),
    {
        self.token_count = self.token_count + 1;
        self.token_count
    }

    /// The last identifier handed out.
    pub fn get_current_token(&self) -> (r: usize)
        ensures
            r == self.last_token(),
    {
        self.token_count
    }

    /// Registers a connection that the listener has just accepted, under the
    /// next identifier, which is returned.
    pub fn server_ready(&mut self) -> (token: usize)
        requires
            old(self).wf(),
            old(self).last_token() < usize::MAX,
        ensures
            final(self).wf(),
            token == old(self).last_token() + 1,
            final(self).last_token() == token,
            !old(self).registry().contains_key(token),
            final(self).registry().contains_key(token),
            final(self).registry().remove(token) == old(self).registry(),
            final(self).registry()[token].inbound() == Seq::<u8>::empty(),
            final(self).registry()[token].outbound() == Seq::<u8>::empty(),
            final(self).registry()[token].live(),
            final(self).registry()[token].watched() == (EventSet { readable: true, writable: true }),
    {
        let token = self.get_next_token();
        let client = FiestaNetworkClient::new(token);
        self.clients.insert(token, client);
        assert(self.registry().remove(token) =~= old(self).registry());
        token
    }

    /// Handles the events reported for connection `token`. `received` is the
    /// outcome of reading its socket, used when `events` has `readable`;
    /// `sent` that of writing its `pending_send` bytes, used when `events` has
    /// `writable`. Returns the jobs for the packets decoded, in order, and
    /// whether the connection ended, in which case it leaves the registry.
    pub fn client_ready(
        &mut self,
        token: usize,
        events: EventSet,
        received: Option<&[u8]>,
        sent: Option<usize>,
    ) -> (r: (Vec<PacketProcessingInfo>, bool))
        requires
            old(self).wf(),
            old(self).registry().contains_key(token),
        ensures
            final(self).wf(),
            final(self).last_token() == old(self).last_token(),
            ({
                let c = old(self).registry()[token];
                let read_ok = events.readable && !read_ends(received);
                let parsed = parse_frames(c.inbound() + received_bytes(received));
                let packets = if read_ok { parsed.0 } else { Seq::<PacketModel>::empty() };
                &&& r.0@.map_values(|j: PacketProcessingInfo| job_view(j)) == packets.map_values(
                    |p: PacketModel| (p, token),
                )
                &&& r.1 == ((events.readable && read_ends(received)) || (events.writable
                    && write_ends(c.outbound(), sent)))
                &&& r.1 ==> final(self).registry() == old(self).registry().remove(token)
                &&& !r.1 ==> {
                    let n = final(self).registry()[token];
                    &&& final(self).registry().contains_key(token)
                    &&& final(self).registry().remove(token) == old(self).registry().remove(token)
                    &&& n.inbound() == if read_ok { parsed.1 } else { c.inbound() }
                    &&& n.outbound() == if events.writable { after_send(c.outbound(), sent) } else { c.outbound() }
                    &&& n.live() == c.live()
                    &&& n.watched() == c.watched()
                }
            }),
    {
        let ghost c = old(self).registry()[token];
        let removed = self.clients.remove(&token);
        let mut client = match removed {
            Some(cl) => cl,
            None => {
                return (Vec::new(), false);
            },
        };
        assert(client == c);
        let mut disconnect = false;
        let mut jobs: Vec<PacketProcessingInfo> = Vec::new();
        if events.readable {
            client.readable(received, &mut disconnect);
            let ghost all = client.queued();
            assert(all =~= Seq::<PacketModel>::empty() + all);
            loop
                invariant
                    jobs@.map_values(|j: PacketProcessingInfo| job_view(j)) + client.queued().map_values(
                        |p: PacketModel| (p, token),
                    ) == all.map_values(|p: PacketModel| (p, token)),
                    client.ident() == token,
                    client.inbound() == (if read_ends(received) { c.inbound() } else { parse_frames(c.inbound() + received_bytes(received)).1 }),
                    client.outbound() == c.outbound(),
                    client.watched() == c.watched(),
                    client.live() == (c.live() && !read_ends(received)),
                    disconnect == read_ends(received),
                ensures
                    client.queued().len() == 0,
                decreases client.queued().len(),
            {
                let ghost q = client.queued();
                let ghost before = jobs@.map_values(|j: PacketProcessingInfo| job_view(j));
                match client.pop_packet() {
                    Some(p) => {
                        jobs.push(PacketProcessingInfo { packet: p, client: token });
                        proof {
                            assert(jobs@.map_values(|j: PacketProcessingInfo| job_view(j)) =~= before.push((q[0], token)));
                            assert(before.push((q[0], token)) + q.drop_first().map_values(|p: PacketModel| (p, token))
                                =~= before + q.map_values(|p: PacketModel| (p, token)));
                        }
                    },
                    None => {
                        break;
                    },
                }
            }
            proof {
                assert(client.queued().map_values(|p: PacketModel| (p, token)) =~= Seq::<(PacketModel, usize)>::empty());
                assert(jobs@.map_values(|j: PacketProcessingInfo| job_view(j)) + Seq::<(PacketModel, usize)>::empty()
                    =~= jobs@.map_values(|j: PacketProcessingInfo| job_view(j)));
                if read_ends(received) {
                    assert(all =~= Seq::<PacketModel>::empty());
                }
            }
        } else {
            assert(jobs@.map_values(|j: PacketProcessingInfo| job_view(j)) =~= Seq::<(PacketModel, usize)>::empty());
        }
        if events.writable && !disconnect {
            client.writeable(sent, &mut disconnect);
        }
        if !disconnect {
            assert(client.queued() =~= Seq::<PacketModel>::empty());
            self.clients.insert(token, client);
            assert(self.registry().remove(token) =~= old(self).registry().remove(token));
        }
        (jobs, disconnect)
    }

    /// The bytes that the next write to connection `token` should hand to its
    /// socket; none for an identifier not registered.
    pub fn pending_send(&self, token: usize) -> (r: Vec<u8>)
        ensures
            self.registry().contains_key(token) ==> ({
                let out = self.registry()[token].outbound();
                r@ == out.take(if out.len() <= CHUNK_SIZE { out.len() as int } else { CHUNK_SIZE as int })
            }),
            !self.registry().contains_key(token) ==> r@.len() == 0,
    {
        match self.clients.get(&token) {
            Some(c) => c.next_send_chunk(),
            None => Vec::new(),
        }
    }

    /// The events watched for connection `token`, if registered.
    pub fn interest(&self, token: usize) -> (r: Option<EventSet>)
        ensures
            self.registry().contains_key(token) ==> r == Some(self.registry()[token].watched()),
            !self.registry().contains_key(token) ==> r is None,
    {
        match self.clients.get(&token) {
            Some(c) => Some(c.interest()),
            None => None,
        }
    }

    /// Queues response bytes for connection `token`. Bytes for a connection
    /// that has left the registry are dropped, and `false` is returned.
    pub fn append_send(&mut self, token: usize, buffer: &[u8]) -> (r: bool)
        requires
            old(self).wf(),
        ensures
            final(self).wf(),
            final(self).last_token() == old(self).last_token(),
            r == old(self).registry().contains_key(token),
            !r ==> final(self).registry() == old(self).registry(),
            r ==> ({
                let c = old(self).registry()[token];
                let n = final(self).registry()[token];
                &&& final(self).registry().contains_key(token)
                &&& final(self).registry().remove(token) == old(self).registry().remove(token)
                &&& n.outbound() == c.outbound() + buffer@
                &&& n.watched() == (EventSet { readable: c.watched().readable, writable: true })
                &&& n.inbound() == c.inbound()
                &&& n.live() == c.live()
            }),
    {
        match self.clients.remove(&token) {
            Some(mut c) => {
                c.append_send(buffer);
                self.clients.insert(token, c);
                assert(self.registry().remove(token) =~= old(self).registry().remove(token));
                true
            },
            None => {
                assert(self.registry() =~= old(self).registry());
                false
            },
        }
    }
}

} // verus!
