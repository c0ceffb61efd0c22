use audio_authoring::packet_buffer::{route_packet, PacketBuffer, PacketRoute, ReadStep};

/// Drives a packet buffer the way a streaming source does, with `packets`
/// standing for what the decoder yields.
fn stream_read(buffer: &mut PacketBuffer<i32>, packets: &mut Vec<Vec<i32>>, out: &mut [i32]) -> usize {
    let mut written = 0;
    loop {
        match buffer.read_step(out, written) {
            ReadStep::Done(n) => return n,
            ReadStep::Fetch(n) => {
                written = n;
                let next = if packets.is_empty() { None } else { Some(packets.remove(0)) };
                buffer.supply(next);
            }
        }
    }
}

#[test]
fn packet_buffer_asks_for_packets_until_full() {
    let mut buffer = PacketBuffer::new();
    let mut out = [0i32; 5];
    assert_eq!(buffer.read_step(&mut out, 0), ReadStep::Fetch(0));
    buffer.supply(Some(vec![1, 2, 3]));
    assert_eq!(buffer.read_step(&mut out, 0), ReadStep::Fetch(3));
    buffer.supply(Some(vec![4, 5, 6, 7]));
    assert_eq!(buffer.read_step(&mut out, 3), ReadStep::Done(5));
    assert_eq!(out, [1, 2, 3, 4, 5]);
    let mut next = [0i32; 4];
    assert_eq!(buffer.read_step(&mut next, 0), ReadStep::Fetch(2));
    assert_eq!(&next[..2], &[6, 7]);
}

#[test]
fn packet_buffer_ends_with_short_read_then_zero() {
    let mut buffer = PacketBuffer::new();
    let mut packets = vec![vec![1, 2], vec![], vec![3]];
    let mut out = [0i32; 8];
    assert_eq!(stream_read(&mut buffer, &mut packets, &mut out), 3);
    assert_eq!(&out[..3], &[1, 2, 3]);
    assert_eq!(stream_read(&mut buffer, &mut packets, &mut out), 0);
    assert_eq!(stream_read(&mut buffer, &mut packets, &mut out), 0);
}

#[test]
fn packet_buffer_read_size_does_not_change_output() {
    let packets: Vec<Vec<i32>> = vec![vec![1, 2, 3], vec![4], vec![5, 6, 7, 8, 9], vec![10, 11]];
    let mut whole_packets = packets.clone();
    let mut whole = PacketBuffer::new();
    let mut big = [0i32; 64];
    let n = stream_read(&mut whole, &mut whole_packets, &mut big);

    let mut piece_packets = packets.clone();
    let mut pieces = PacketBuffer::new();
    let mut collected = Vec::new();
    let mut tiny = [0i32; 7];
    loop {
        let k = stream_read(&mut pieces, &mut piece_packets, &mut tiny);
        if k == 0 {
            break;
        }
        collected.extend_from_slice(&tiny[..k]);
    }
    assert_eq!(n, 11);
    assert_eq!(collected, big[..n].to_vec());
}

#[test]
fn packet_buffer_empty_output_needs_nothing() {
    let mut buffer: PacketBuffer<i32> = PacketBuffer::new();
    let mut out: [i32; 0] = [];
    assert_eq!(buffer.read_step(&mut out, 0), ReadStep::Done(0));
}

#[test]
fn packet_buffer_supply_queues_after_pending() {
    let mut buffer = PacketBuffer::new();
    buffer.supply(Some(vec![1, 2]));
    buffer.supply(Some(vec![3]));
    let mut out = [0i32; 3];
    assert_eq!(buffer.read_step(&mut out, 0), ReadStep::Done(3));
    assert_eq!(out, [1, 2, 3]);
}

#[test]
fn route_packet_follows_the_played_track() {
    assert_eq!(route_packet(None, 3), PacketRoute::Finish);
    assert_eq!(route_packet(Some(3), 3), PacketRoute::Decode);
    assert_eq!(route_packet(Some(4), 3), PacketRoute::Skip);
}
