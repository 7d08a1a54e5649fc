use crate::buffer::le_u16;
use vstd::prelude::*;

verus! {

/// A decoded packet: its 16-bit opcode and its body.
pub type PacketModel = (u16, Seq<u8>);

/// Body length and width of the length field of the frame at the front of `s`,
/// once `s` holds the whole length field.
pub open spec fn frame_prefix(s: Seq<u8>) -> Option<(nat, nat)> {
    if s.len() == 0 {
        None
    } else if s[0] != 0 {
        Some((s[0] as nat, 1))
    } else if s.len() < 3 {
        None
    } else {
        Some((le_u16(s[1], s[2]), 3))
    }
}

/// Whether `s` starts with a complete frame.
pub open spec fn has_frame(s: Seq<u8>) -> bool {
    match frame_prefix(s) {
        Some((body, width)) => s.len() >= width + 2 + body,
        None => false,
    }
}

/// Number of bytes taken by the frame at the front of `s`.
pub open spec fn first_frame_len(s: Seq<u8>) -> nat {
    match frame_prefix(s) {
        Some((body, width)) => width + 2 + body,
        None => 0,
    }
}

/// The packet carried by the frame at the front of `s`.
pub open spec fn first_packet(s: Seq<u8>) -> PacketModel {
    match frame_prefix(s) {
        Some((body, width)) => (
            le_u16(s[width as int], s[width + 1int]) as u16,
            s.subrange(width + 2int, width + 2int + body),
        ),
        None => (0, Seq::empty()),
    }
}

/// Splits `s` into the packets of its leading complete frames and the bytes
/// left after them.
pub open spec fn parse_frames(s: Seq<u8>) -> (Seq<PacketModel>, Seq<u8>)
    decreases s.len(),
{
    if has_frame(s) && first_frame_len(s) > 0 {
        let rest = parse_frames(s.skip(first_frame_len(s) as int));
        (seq![first_packet(s)] + rest.0, rest.1)
    } else {
        (Seq::empty(), s)
    }
}

/// The two bytes of a header, little-endian.
pub open spec fn header_bytes(header: u16) -> Seq<u8> {
    seq![(header % 256) as u8, (header / 256) as u8]
}

/// A frame whose body length is given in its one leading byte.
pub open spec fn short_frame(header: u16, body: Seq<u8>) -> Seq<u8> {
    seq![body.len() as u8] + header_bytes(header) + body
}

/// A frame that starts with a zero byte and gives the body length in the next
/// two bytes, little-endian.
pub open spec fn long_frame(header: u16, body: Seq<u8>) -> Seq<u8> {
    seq![0u8, (body.len() % 256) as u8, (body.len() / 256) as u8] + header_bytes(header) + body
}

/// The frame of a packet: the one-byte length form where the body length
/// fits in 1..=255, the extended form otherwise.
pub open spec fn encode_frame(p: PacketModel) -> Seq<u8> {
    if 1 <= p.1.len() <= 255 {
        short_frame(p.0, p.1)
    } else {
        long_frame(p.0, p.1)
    }
}

/// The frames of `ps`, one after another.
pub open spec fn encode_frames(ps: Seq<PacketModel>) -> Seq<u8>
    decreases ps.len(),
{
    if ps.len() == 0 {
        Seq::empty()
    } else {
        encode_frame(ps[0]) + encode_frames(ps.drop_first())
    }
}

/// Whether every packet of `ps` has a body that a frame can carry.
pub open spec fn encodable(ps: Seq<PacketModel>) -> bool {
    forall|i: int| 0 <= i < ps.len() ==> #[trigger] ps[i].1.len() <= 65535
}

/// What a connection has produced after receiving `chunks` one read at a
/// time, starting from the unread bytes `buffered`: the packets, in order,
/// and the bytes left buffered.
pub open spec fn deliver(buffered: Seq<u8>, chunks: Seq<Seq<u8>>) -> (Seq<PacketModel>, Seq<u8>)
    decreases chunks.len(),
{
    if chunks.len() == 0 {
        (Seq::empty(), buffered)
    } else {
        let now = parse_frames(buffered + chunks[0]);
        let later = deliver(now.1, chunks.drop_first());
        (now.0 + later.0, later.1)
    }
}

proof fn lemma_header_bytes(header: u16)
    ensures
        le_u16(header_bytes(header)[0], header_bytes(header)[1]) as u16 == header,
{
}

/// Appending bytes after a stream leaves the packets of its complete frames
/// unchanged: parsing `a + b` gives the packets of `a`, then those of what
/// `a` left over followed by `b`.
pub proof fn lemma_parse_append(a: Seq<u8>, b: Seq<u8>)
    ensures
        parse_frames(a + b) == ({
            let left = parse_frames(a);
            let next = parse_frames(left.1 + b);
            (left.0 + next.0, next.1)
        }),
    decreases a.len(),
{
    if has_frame(a) && first_frame_len(a) > 0 {
        let n = first_frame_len(a);
        assert(frame_prefix(a + b) == frame_prefix(a));
        assert(first_packet(a + b) == first_packet(a)) by {
            let w = frame_prefix(a).unwrap().1 as int;
            let l = frame_prefix(a).unwrap().0 as int;
            assert((a + b).subrange(w + 2, w + 2 + l) =~= a.subrange(w + 2, w + 2 + l));
        }
        assert((a + b).skip(n as int) =~= a.skip(n as int) + b);
        lemma_parse_append(a.skip(n as int), b);
        let left = parse_frames(a.skip(n as int));
        let next = parse_frames(left.1 + b);
        assert(seq![first_packet(a)] + (left.0 + next.0) =~= (seq![first_packet(a)] + left.0)
            + next.0);
    } else {
        assert(Seq::<PacketModel>::empty() + parse_frames(a + b).0 =~= parse_frames(a + b).0);
    }
}

/// Decoding one encoded frame followed by other bytes gives that frame's
/// packet, then the packets of the other bytes.
pub proof fn lemma_decode_frame(p: PacketModel, rest: Seq<u8>)
    requires
        p.1.len() <= 65535,
    ensures
        parse_frames(encode_frame(p) + rest) == ({
            let tail = parse_frames(rest);
            (seq![p] + tail.0, tail.1)
        }),
{
    let s = encode_frame(p) + rest;
    let e = encode_frame(p);
    lemma_header_bytes(p.0);
    let w: int = if 1 <= p.1.len() <= 255 { 1 } else { 3 };
    if w == 3 {
        assert(le_u16((p.1.len() % 256) as u8, (p.1.len() / 256) as u8) == p.1.len());
    }
    assert(frame_prefix(s) == Some((p.1.len(), w as nat)));
    assert(first_frame_len(s) == e.len());
    assert(s.subrange(w + 2, w + 2 + p.1.len()) =~= p.1);
    assert(s[w] == header_bytes(p.0)[0]);
    assert(s[w + 1] == header_bytes(p.0)[1]);
    assert(first_packet(s) == p);
    assert(s.skip(e.len() as int) =~= rest);
}

/// A frame with a one-byte length, received in any number of reads, decodes
/// to exactly its own packet and leaves nothing unread.
pub proof fn lemma_short_frame_round_trip(header: u16, body: Seq<u8>, chunks: Seq<Seq<u8>>)
    requires
        1 <= body.len() <= 255,
        chunks.flatten() == short_frame(header, body),
    ensures
        deliver(Seq::empty(), chunks) == (seq![(header, body)], Seq::<u8>::empty()),
{
    lemma_single_frame_delivery((header, body), chunks);
}

/// A frame with the extended 16-bit length, received in any number of reads,
/// decodes to exactly its own packet and leaves nothing unread.
pub proof fn lemma_long_frame_round_trip(header: u16, body: Seq<u8>, chunks: Seq<Seq<u8>>)
    requires
        256 <= body.len() <= 65535,
        chunks.flatten() == long_frame(header, body),
    ensures
        deliver(Seq::empty(), chunks) == (seq![(header, body)], Seq::<u8>::empty()),
{
    lemma_single_frame_delivery((header, body), chunks);
}

proof fn lemma_single_frame_delivery(p: PacketModel, chunks: Seq<Seq<u8>>)
    requires
        p.1.len() <= 65535,
        chunks.flatten() == encode_frame(p),
    ensures
        deliver(Seq::empty(), chunks) == (seq![p], Seq::<u8>::empty()),
{
    lemma_split_delivery(Seq::empty(), chunks);
    assert(Seq::<u8>::empty() + chunks.flatten() =~= encode_frame(p) + Seq::<u8>::empty());
    lemma_decode_frame(p, Seq::empty());
    assert(parse_frames(Seq::<u8>::empty()) == (Seq::<PacketModel>::empty(), Seq::<u8>::empty()));
    assert(seq![p] + Seq::<PacketModel>::empty() =~= seq![p]);
}

/// A stream of complete frames followed by an incomplete one decodes to the
/// packets of the complete frames, and the incomplete bytes stay unread.
pub proof fn lemma_backlog(ps: Seq<PacketModel>, partial: Seq<u8>)
    requires
        encodable(ps),
        !has_frame(partial),
    ensures
        parse_frames(encode_frames(ps) + partial) == (ps, partial),
    decreases ps.len(),
{
    if ps.len() == 0 {
        assert(encode_frames(ps) + partial =~= partial);
        assert(ps =~= Seq::<PacketModel>::empty());
    } else {
        let tail = ps.drop_first();
        assert(ps[0].1.len() <= 65535);
        assert(encodable(tail)) by {
            assert forall|i: int| 0 <= i < tail.len() implies #[trigger] tail[i].1.len() <= 65535 by {
                assert(tail[i] == ps[i + 1]);
            }
        }
        lemma_backlog(tail, partial);
        assert(encode_frames(ps) + partial =~= encode_frame(ps[0]) + (encode_frames(tail) + partial));
        lemma_decode_frame(ps[0], encode_frames(tail) + partial);
        assert(seq![ps[0]] + tail =~= ps);
    }
}

/// Receiving a stream in any number of reads yields the same packets, in the
/// same order, and leaves the same bytes unread as receiving it in one read,
/// starting from unread bytes that hold no complete frame.
pub proof fn lemma_split_delivery(buffered: Seq<u8>, chunks: Seq<Seq<u8>>)
    requires
        !has_frame(buffered),
    ensures
        deliver(buffered, chunks) == parse_frames(buffered + chunks.flatten()),
    decreases chunks.len(),
{
    if chunks.len() == 0 {
        assert(buffered + chunks.flatten() =~= buffered);
    } else {
        let now = parse_frames(buffered + chunks[0]);
        lemma_parse_leaves_no_frame(buffered + chunks[0]);
        lemma_split_delivery(now.1, chunks.drop_first());
        assert(buffered + chunks.flatten() =~= (buffered + chunks[0]) + chunks.drop_first().flatten());
        lemma_parse_append(buffered + chunks[0], chunks.drop_first().flatten());
    }
}

/// The bytes left after parsing hold no complete frame.
pub proof fn lemma_parse_leaves_no_frame(s: Seq<u8>)
    ensures
        !has_frame(parse_frames(s).1),
    decreases s.len(),
{
    if has_frame(s) && first_frame_len(s) > 0 {
        lemma_parse_leaves_no_frame(s.skip(first_frame_len(s) as int));
    }
}

} // verus!
