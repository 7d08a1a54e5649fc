use fiesta_network::buffer::{Buffer, BufferError};
use fiesta_network::client::{EventSet, FiestaHandler, FiestaNetworkClient, FiestaPacket, CHUNK_SIZE};
use fiesta_network::packetproc::PacketProcessingInfo;

fn body_of(p: &FiestaPacket) -> Vec<u8> {
    p.data.peek_max(0, usize::MAX).unwrap()
}

fn read_only() -> EventSet {
    EventSet { readable: true, writable: false }
}

fn write_only() -> EventSet {
    EventSet { readable: false, writable: true }
}

fn short_frame(header: u16, body: &[u8]) -> Vec<u8> {
    let mut v = vec![body.len() as u8, (header & 0xff) as u8, (header >> 8) as u8];
    v.extend_from_slice(body);
    v
}

fn long_frame(header: u16, body: &[u8]) -> Vec<u8> {
    let n = body.len();
    let mut v = vec![0, (n & 0xff) as u8, (n >> 8) as u8, (header & 0xff) as u8, (header >> 8) as u8];
    v.extend_from_slice(body);
    v
}

fn drain_packets(c: &mut FiestaNetworkClient) -> Vec<(u16, Vec<u8>)> {
    let mut out = Vec::new();
    while let Some(p) = c.pop_packet() {
        out.push((p.header, body_of(&p)));
    }
    out
}

#[test]
fn buffer_peeks_little_endian_without_consuming() {
    let mut b = Buffer::new();
    b.append(&[0x34, 0x12, 0xff]);
    assert_eq!(b.peek_u8(2), Ok(0xff));
    assert_eq!(b.peek_u16(0), Ok(0x1234));
    assert_eq!(b.peek_u16(1), Ok(0xff12));
    assert_eq!(b.bytes_remaining(), 3);
    assert_eq!(b.read_u16(), Ok(0x1234));
    assert_eq!(b.bytes_remaining(), 1);
}

#[test]
fn buffer_reports_insufficient_data() {
    let mut b = Buffer::new();
    assert_eq!(b.peek_u8(0), Err(BufferError::InsufficientData));
    b.append(&[7]);
    assert_eq!(b.peek_u16(0), Err(BufferError::InsufficientData));
    assert_eq!(b.advance_read(2), Err(BufferError::InsufficientData));
    assert_eq!(b.read_bytes(2), Err(BufferError::InsufficientData));
    assert_eq!(b.peek_max(2, 1), Err(BufferError::InsufficientData));
    assert_eq!(b.peek_max(1, 4), Ok(vec![]));
    assert_eq!(b.bytes_remaining(), 1);
    assert_eq!(b.read_bytes(1), Ok(vec![7]));
}

#[test]
fn short_frame_round_trip() {
    let mut c = FiestaNetworkClient::new(1);
    let mut d = false;
    c.readable(Some(&short_frame(0xbeef, &[1, 2, 3])[..]), &mut d);
    assert!(!d);
    assert_eq!(drain_packets(&mut c), vec![(0xbeef, vec![1, 2, 3])]);
}

#[test]
fn short_frame_round_trip_byte_by_byte() {
    let body: Vec<u8> = (0..255u32).map(|i| i as u8).collect();
    let frame = short_frame(0x0102, &body);
    let mut c = FiestaNetworkClient::new(1);
    let mut d = false;
    for (i, byte) in frame.iter().enumerate() {
        assert!(!c.can_read_next_packet());
        c.readable(Some(&[*byte][..]), &mut d);
        if i + 1 < frame.len() {
            assert!(c.pop_packet().is_none());
        }
    }
    assert_eq!(drain_packets(&mut c), vec![(0x0102, body)]);
}

#[test]
fn long_frame_round_trip() {
    let body: Vec<u8> = (0..300u32).map(|i| (i * 7) as u8).collect();
    let mut c = FiestaNetworkClient::new(1);
    let mut d = false;
    c.readable(Some(&long_frame(7, &body)[..]), &mut d);
    assert_eq!(drain_packets(&mut c), vec![(7, body)]);
}

#[test]
fn long_frame_of_largest_size() {
    let body = vec![0xaa; 65535];
    let frame = long_frame(0xffff, &body);
    let mut c = FiestaNetworkClient::new(1);
    let mut d = false;
    for chunk in frame.chunks(CHUNK_SIZE) {
        c.readable(Some(chunk), &mut d);
    }
    assert_eq!(drain_packets(&mut c), vec![(0xffff, body)]);
}

#[test]
fn extended_length_form_with_small_body() {
    let mut c = FiestaNetworkClient::new(1);
    let mut d = false;
    c.readable(Some(&long_frame(5, &[9, 8])[..]), &mut d);
    c.readable(Some(&long_frame(6, &[])[..]), &mut d);
    assert_eq!(drain_packets(&mut c), vec![(5, vec![9, 8]), (6, vec![])]);
}

#[test]
fn split_delivery_matches_single_read() {
    let mut stream = short_frame(1, &[1]);
    stream.extend(long_frame(2, &vec![2; 400]));
    stream.extend(short_frame(3, &[3, 3, 3]));
    let mut whole = FiestaNetworkClient::new(1);
    let mut d = false;
    whole.readable(Some(&stream[..]), &mut d);
    let expected = drain_packets(&mut whole);
    assert_eq!(expected.len(), 3);
    for split in [1usize, 2, 3, 5, 7, 100, 401] {
        let mut c = FiestaNetworkClient::new(1);
        for chunk in stream.chunks(split) {
            c.readable(Some(chunk), &mut d);
        }
        assert_eq!(drain_packets(&mut c), expected);
    }
    assert!(!d);
}

#[test]
fn backlog_keeps_partial_frame() {
    let mut stream = short_frame(1, &[1, 1]);
    stream.extend(short_frame(2, &[2]));
    let third = short_frame(3, &[3, 3, 3, 3]);
    stream.extend_from_slice(&third[..3]);
    let mut c = FiestaNetworkClient::new(1);
    let mut d = false;
    c.readable(Some(&stream[..]), &mut d);
    assert_eq!(drain_packets(&mut c), vec![(1, vec![1, 1]), (2, vec![2])]);
    assert!(!c.can_read_next_packet());
    c.readable(Some(&third[3..]), &mut d);
    assert_eq!(drain_packets(&mut c), vec![(3, vec![3, 3, 3, 3])]);
}

#[test]
fn empty_read_disconnects() {
    let mut h = FiestaHandler::new();
    let t = h.server_ready();
    let (jobs, gone) = h.client_ready(t, read_only(), Some(&[][..]), None);
    assert!(gone);
    assert!(jobs.is_empty());
    assert_eq!(h.interest(t), None);
}

#[test]
fn read_error_disconnects() {
    let mut c = FiestaNetworkClient::new(4);
    let mut d = false;
    c.readable(Some(&[2, 0, 0][..]), &mut d);
    c.readable(None, &mut d);
    assert!(d);
    assert!(!c.alive());
    assert!(c.pop_packet().is_none());
}

#[test]
fn write_drains_under_partial_writes() {
    let mut h = FiestaHandler::new();
    let t = h.server_ready();
    let data: Vec<u8> = (0..3000u32).map(|i| (i % 251) as u8).collect();
    assert!(h.append_send(t, &data));
    assert_eq!(h.interest(t), Some(EventSet::all()));
    let mut wire = Vec::new();
    loop {
        let chunk = h.pending_send(t);
        if chunk.is_empty() {
            break;
        }
        assert!(chunk.len() <= CHUNK_SIZE);
        let n = std::cmp::min(chunk.len(), 333);
        wire.extend_from_slice(&chunk[..n]);
        let (jobs, gone) = h.client_ready(t, write_only(), None, Some(n));
        assert!(jobs.is_empty());
        assert!(!gone);
    }
    assert_eq!(wire, data);
}

#[test]
fn zero_byte_write_disconnects() {
    let mut c = FiestaNetworkClient::new(2);
    let mut d = false;
    c.append_send(&[1, 2, 3]);
    assert_eq!(c.next_send_chunk(), vec![1, 2, 3]);
    c.writeable(Some(0), &mut d);
    assert!(d);
    assert!(!c.alive());
}

#[test]
fn nothing_queued_write_is_no_op() {
    let mut c = FiestaNetworkClient::new(2);
    let mut d = false;
    c.writeable(None, &mut d);
    assert!(!d);
    assert!(c.alive());
}

#[test]
fn append_send_adds_writable_interest() {
    let mut c = FiestaNetworkClient::new(9);
    assert_eq!(c.id(), 9);
    assert_eq!(c.interest(), EventSet::all());
    c.append_send(&[5]);
    assert_eq!(c.interest(), EventSet::all());
    let mut d = false;
    c.writeable(Some(1), &mut d);
    assert_eq!(c.next_send_chunk(), Vec::<u8>::new());
}

#[test]
fn identifiers_increase_from_listener() {
    let mut h = FiestaHandler::new();
    assert_eq!(h.get_current_token(), 0);
    assert_eq!(h.server_ready(), 1);
    assert_eq!(h.server_ready(), 2);
    assert_eq!(h.get_current_token(), 2);
    let (_, gone) = h.client_ready(1, read_only(), None, None);
    assert!(gone);
    assert_eq!(h.server_ready(), 3);
    assert_eq!(h.interest(1), None);
    assert!(!h.append_send(1, &[1]));
}

#[test]
fn each_packet_becomes_one_job_in_order() {
    let mut h = FiestaHandler::new();
    let a = h.server_ready();
    let b = h.server_ready();
    let mut stream = Vec::new();
    for i in 0..20u16 {
        stream.extend(short_frame(i, &[i as u8 + 1]));
    }
    let (jobs_a, _) = h.client_ready(a, read_only(), Some(&stream[..]), None);
    let (jobs_b, _) = h.client_ready(b, EventSet::all(), Some(&short_frame(99, &[1])[..]), Some(0));
    let seen: Vec<(usize, u16, Vec<u8>)> = jobs_a
        .iter()
        .chain(jobs_b.iter())
        .map(|j: &PacketProcessingInfo| (j.client, j.packet.header, body_of(&j.packet)))
        .collect();
    assert_eq!(seen.len(), 21);
    for i in 0..20usize {
        assert_eq!(seen[i], (a, i as u16, vec![i as u8 + 1]));
    }
    assert_eq!(seen[20], (b, 99, vec![1]));
    assert_eq!(h.interest(a), Some(EventSet::all()));
}

#[test]
fn packet_new_is_empty() {
    let p = FiestaPacket::new(42);
    assert_eq!(p.header, 42);
    assert_eq!(p.data.bytes_remaining(), 0);
}
