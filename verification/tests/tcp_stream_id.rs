use deadlock_api_ingest::packet::{IpAddress, TcpStreamId};
use std::collections::hash_map::DefaultHasher;
use std::hash::{Hash, Hasher};

#[test]
fn test_tcp_stream_id_from_ipv4_packet() {
    let mut packet = vec![0u8; 40];
    packet[0] = 0x45;
    packet[9] = 6;
    packet[12..16].copy_from_slice(&[192, 168, 1, 100]);
    packet[16..20].copy_from_slice(&[10, 0, 0, 1]);
    packet[20..22].copy_from_slice(&[0x30, 0x39]);
    packet[22..24].copy_from_slice(&[0x00, 0x50]);

    let stream_id = TcpStreamId::from_ip_packet(&packet).unwrap();

    assert_eq!(stream_id.src_ip, IpAddress::v4(192, 168, 1, 100));
    assert_eq!(stream_id.dst_ip, IpAddress::v4(10, 0, 0, 1));
    assert_eq!(stream_id.src_port, 12345);
    assert_eq!(stream_id.dst_port, 80);
    assert_eq!(stream_id.protocol, 6);
}

#[test]
fn test_tcp_stream_id_from_ethernet_frame() {
    let mut packet = vec![0u8; 54];
    packet[0..6].copy_from_slice(&[0x00, 0x11, 0x22, 0x33, 0x44, 0x55]);
    packet[6..12].copy_from_slice(&[0xAA, 0xBB, 0xCC, 0xDD, 0xEE, 0xFF]);
    packet[12..14].copy_from_slice(&[0x08, 0x00]);
    packet[14] = 0x45;
    packet[23] = 6;
    packet[26..30].copy_from_slice(&[172, 16, 0, 1]);
    packet[30..34].copy_from_slice(&[8, 8, 8, 8]);
    packet[34..36].copy_from_slice(&[0xD4, 0x31]);
    packet[36..38].copy_from_slice(&[0x01, 0xBB]);

    let stream_id = TcpStreamId::from_ethernet_frame(&packet).unwrap();

    assert_eq!(stream_id.src_ip, IpAddress::v4(172, 16, 0, 1));
    assert_eq!(stream_id.dst_ip, IpAddress::v4(8, 8, 8, 8));
    assert_eq!(stream_id.src_port, 54321);
    assert_eq!(stream_id.dst_port, 443);
    assert_eq!(stream_id.protocol, 6);
}

#[test]
fn test_tcp_stream_id_hash_consistency() {
    let stream_id1 = TcpStreamId {
        src_ip: IpAddress::v4(192, 168, 1, 1),
        dst_ip: IpAddress::v4(10, 0, 0, 1),
        src_port: 12345,
        dst_port: 80,
        protocol: 6,
    };

    let stream_id2 = TcpStreamId {
        src_ip: IpAddress::v4(192, 168, 1, 1),
        dst_ip: IpAddress::v4(10, 0, 0, 1),
        src_port: 12345,
        dst_port: 80,
        protocol: 6,
    };

    assert_eq!(stream_id1, stream_id2);

    let mut hasher1 = DefaultHasher::new();
    let mut hasher2 = DefaultHasher::new();
    stream_id1.hash(&mut hasher1);
    stream_id2.hash(&mut hasher2);
    assert_eq!(hasher1.finish(), hasher2.finish());
}

#[test]
fn test_tcp_stream_id_invalid_packets() {
    let short_packet = vec![0u8; 10];
    assert!(TcpStreamId::from_packet(&short_packet).is_none());

    let mut udp_packet = vec![0u8; 40];
    udp_packet[0] = 0x45;
    udp_packet[9] = 17;
    assert!(TcpStreamId::from_ip_packet(&udp_packet).is_none());

    let mut invalid_packet = vec![0u8; 40];
    invalid_packet[0] = 0x35;
    assert!(TcpStreamId::from_ip_packet(&invalid_packet).is_none());
}

#[test]
fn test_tcp_stream_id_from_ipv6_packet() {
    let mut packet = vec![0u8; 60];
    packet[0] = 0x60;
    packet[6] = 6;
    packet[8..24].copy_from_slice(&[
        0x20, 0x01, 0x0d, 0xb8, 0x00, 0x00, 0x00, 0x00, 0x00, 0x00, 0x00, 0x00, 0x00, 0x00,
        0x00, 0x01,
    ]);
    packet[24..40].copy_from_slice(&[
        0x20, 0x01, 0x0d, 0xb8, 0x00, 0x00, 0x00, 0x00, 0x00, 0x00, 0x00, 0x00, 0x00, 0x00,
        0x00, 0x02,
    ]);
    packet[40..42].copy_from_slice(&[0x1F, 0x90]);
    packet[42..44].copy_from_slice(&[0x00, 0x50]);

    let stream_id = TcpStreamId::from_ip_packet(&packet).unwrap();

    assert_eq!(
        stream_id.src_ip,
        IpAddress::V6(0x2001_0db8_0000_0000_0000_0000_0000_0001)
    );
    assert_eq!(
        stream_id.dst_ip,
        IpAddress::v6([0x20, 0x01, 0x0d, 0xb8, 0, 0, 0, 0, 0, 0, 0, 0, 0, 0, 0, 2])
    );
    assert_eq!(stream_id.src_port, 8080);
    assert_eq!(stream_id.dst_port, 80);
    assert_eq!(stream_id.protocol, 6);
}

#[test]
fn address_constructors_read_network_order() {
    assert_eq!(IpAddress::v4(192, 168, 1, 100), IpAddress::V4(0xC0A8_0164));
    assert_eq!(IpAddress::v4(0, 0, 0, 1), IpAddress::V4(1));
    let mut octets = [0u8; 16];
    octets[0] = 0xff;
    octets[15] = 0x01;
    assert_eq!(
        IpAddress::v6(octets),
        IpAddress::V6(0xff00_0000_0000_0000_0000_0000_0000_0001)
    );
}

#[test]
fn families_are_distinct_keys() {
    let v4 = IpAddress::V4(1);
    let v6 = IpAddress::V6(1);
    assert_ne!(v4, v6);
    let a = TcpStreamId { src_ip: v4, dst_ip: v4, src_port: 1, dst_port: 2, protocol: 6 };
    let b = TcpStreamId { src_ip: v6, dst_ip: v6, src_port: 1, dst_port: 2, protocol: 6 };
    assert_ne!(a, b);
    let mut ha = DefaultHasher::new();
    let mut hb = DefaultHasher::new();
    a.hash(&mut ha);
    b.hash(&mut hb);
    assert_ne!(ha.finish(), hb.finish());
}

#[test]
fn ipv4_header_length_moves_the_ports() {
    let mut packet = vec![0u8; 44];
    packet[0] = 0x46;
    packet[9] = 6;
    packet[12..16].copy_from_slice(&[1, 2, 3, 4]);
    packet[16..20].copy_from_slice(&[5, 6, 7, 8]);
    packet[20..24].copy_from_slice(&[0xAA, 0xAA, 0xBB, 0xBB]);
    packet[24..28].copy_from_slice(&[0x00, 0x50, 0x1F, 0x90]);
    let id = TcpStreamId::from_packet(&packet).unwrap();
    assert_eq!(id.src_ip, IpAddress::V4(0x0102_0304));
    assert_eq!(id.dst_ip, IpAddress::V4(0x0506_0708));
    assert_eq!(id.src_port, 80);
    assert_eq!(id.dst_port, 8080);
}

#[test]
fn ipv4_needs_four_bytes_past_the_header() {
    let mut packet = vec![0u8; 23];
    packet[0] = 0x45;
    packet[9] = 6;
    assert!(TcpStreamId::from_ipv4_packet(&packet).is_none());
    packet.push(0);
    assert!(TcpStreamId::from_ipv4_packet(&packet).is_some());
    assert!(TcpStreamId::from_ipv4_packet(&packet[..19]).is_none());
    packet[0] = 0x46;
    assert!(TcpStreamId::from_ipv4_packet(&packet).is_none());
    packet.extend_from_slice(&[0, 0, 0]);
    assert!(TcpStreamId::from_ipv4_packet(&packet).is_none());
    packet.push(0);
    assert!(TcpStreamId::from_ipv4_packet(&packet).is_some());
}

#[test]
fn ipv4_packet_that_ends_with_its_ports_has_a_key() {
    let mut packet = vec![0u8; 24];
    packet[0] = 0x45;
    packet[9] = 6;
    packet[12..16].copy_from_slice(&[1, 2, 3, 4]);
    packet[16..20].copy_from_slice(&[5, 6, 7, 8]);
    packet[20..24].copy_from_slice(&[0x00, 0x50, 0x01, 0xBB]);
    let expected = TcpStreamId {
        src_ip: IpAddress::v4(1, 2, 3, 4),
        dst_ip: IpAddress::v4(5, 6, 7, 8),
        src_port: 80,
        dst_port: 443,
        protocol: 6,
    };
    assert_eq!(TcpStreamId::from_ipv4_packet(&packet), Some(expected));
    assert_eq!(TcpStreamId::from_ip_packet(&packet), Some(expected));
    assert_eq!(TcpStreamId::from_packet(&packet), Some(expected));
}

#[test]
fn ipv4_header_of_no_words_reads_the_ports_at_the_start() {
    let mut packet = vec![0u8; 20];
    packet[0] = 0x40;
    packet[1] = 0x50;
    packet[2] = 0x01;
    packet[3] = 0xBB;
    packet[9] = 6;
    let id = TcpStreamId::from_ipv4_packet(&packet).unwrap();
    assert_eq!(id.src_port, 0x4050);
    assert_eq!(id.dst_port, 443);
}

#[test]
fn ipv6_needs_four_bytes_past_the_header() {
    let mut packet = vec![0u8; 43];
    packet[0] = 0x60;
    packet[6] = 6;
    assert!(TcpStreamId::from_ipv6_packet(&packet).is_none());
    packet.push(0);
    assert!(TcpStreamId::from_ipv6_packet(&packet).is_some());
    packet[6] = 17;
    assert!(TcpStreamId::from_ipv6_packet(&packet).is_none());
}

#[test]
fn ethernet_frame_with_ipv6_and_unknown_type() {
    let mut frame = vec![0u8; 14 + 60];
    frame[12] = 0x86;
    frame[13] = 0xDD;
    frame[14] = 0x60;
    frame[14 + 6] = 6;
    frame[14 + 23] = 9;
    frame[14 + 39] = 7;
    frame[14 + 40..14 + 44].copy_from_slice(&[0x01, 0x00, 0x00, 0x02]);
    let id = TcpStreamId::from_packet(&frame).unwrap();
    assert_eq!(id.src_ip, IpAddress::V6(9));
    assert_eq!(id.dst_ip, IpAddress::V6(7));
    assert_eq!(id.src_port, 256);
    assert_eq!(id.dst_port, 2);
    frame[12] = 0x08;
    frame[13] = 0x06;
    assert!(TcpStreamId::from_ethernet_frame(&frame).is_none());
    assert!(TcpStreamId::from_ethernet_frame(&frame[..13]).is_none());
    assert!(TcpStreamId::from_ip_packet(&[]).is_none());
}
