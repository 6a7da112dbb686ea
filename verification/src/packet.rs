//! Identifying the TCP connection that a captured frame belongs to.

use vstd::prelude::*;

verus! {

/// EtherType of IPv4.
pub const ETHERTYPE_IPV4: u16 = 0x0800;

/// EtherType of IPv6.
pub const ETHERTYPE_IPV6: u16 = 0x86DD;

/// Protocol number of TCP.
pub const IPPROTO_TCP: u8 = 6;

/// A network address, tagged by its family. The number is the address
/// bytes read in network order.
#[derive(Debug, Clone, Copy, PartialEq, Eq, Hash, Structural)]
pub enum IpAddress {
    V4(u32),
    V6(u128),
}

/// The 5-tuple that identifies one direction of a TCP connection.
#[derive(Debug, Clone, Copy, PartialEq, Eq, Hash, Structural)]
pub struct TcpStreamId {
    pub src_ip: IpAddress,
    pub dst_ip: IpAddress,
    pub src_port: u16,
    pub dst_port: u16,
    pub protocol: u8,
}

/// 256 to the power `n`.
pub open spec fn span(n: nat) -> nat
    decreases n,
{
    if n == 0 {
        1
    } else {
        span((n - 1) as nat) * 256
    }
}

/// The number that `bytes` write in network (big-endian) order.
pub open spec fn be_value(bytes: Seq<u8>) -> nat
    decreases bytes.len(),
{
    if bytes.len() == 0 {
        0
    } else {
        be_value(bytes.drop_last()) * 256 + bytes.last() as nat
    }
}

/// The `n` bytes that write `v` in network (big-endian) order.
pub open spec fn be_bytes(v: nat, n: nat) -> Seq<u8>
    decreases n,
{
    if n == 0 {
        Seq::empty()
    } else {
        be_bytes(v / 256, (n - 1) as nat).push((v % 256) as u8)
    }
}

/// The key of the IPv4 packet `p`, where it carries TCP, holds the 20
/// bytes of the shortest header, and holds the four port bytes behind
/// the header, whose length its first byte gives.
pub open spec fn ipv4_key(p: Seq<u8>) -> Option<TcpStreamId> {
    if p.len() < 20 || p[9] != IPPROTO_TCP {
        None
    } else {
        let h = (p[0] % 16) * 4;
        if p.len() < h + 4 {
            None
        } else {
            Some(
                TcpStreamId {
                    src_ip: IpAddress::V4(be_value(p.subrange(12, 16)) as u32),
                    dst_ip: IpAddress::V4(be_value(p.subrange(16, 20)) as u32),
                    src_port: be_value(p.subrange(h, h + 2)) as u16,
                    dst_port: be_value(p.subrange(h + 2, h + 4)) as u16,
                    protocol: p[9],
                },
            )
        }
    }
}

/// The key of the IPv6 packet `p`, where TCP follows its fixed header
/// directly and the packet is long enough.
pub open spec fn ipv6_key(p: Seq<u8>) -> Option<TcpStreamId> {
    if p.len() < 44 || p[6] != IPPROTO_TCP {
        None
    } else {
        Some(
            TcpStreamId {
                src_ip: IpAddress::V6(be_value(p.subrange(8, 24)) as u128),
                dst_ip: IpAddress::V6(be_value(p.subrange(24, 40)) as u128),
                src_port: be_value(p.subrange(40, 42)) as u16,
                dst_port: be_value(p.subrange(42, 44)) as u16,
                protocol: p[6],
            },
        )
    }
}

/// The key of `p` read as a link-layer frame: 14 bytes of header, whose
/// last two give the type of the packet that follows.
pub open spec fn ethernet_key(p: Seq<u8>) -> Option<TcpStreamId> {
    if p.len() < 14 {
        None
    } else {
        let ethertype = be_value(p.subrange(12, 14));
        if ethertype == ETHERTYPE_IPV4 {
            ipv4_key(p.skip(14))
        } else if ethertype == ETHERTYPE_IPV6 {
            ipv6_key(p.skip(14))
        } else {
            None
        }
    }
}

/// The key of `p` read as a bare network-layer packet, by its version nibble.
pub open spec fn ip_key(p: Seq<u8>) -> Option<TcpStreamId> {
    if p.len() == 0 {
        None
    } else if p[0] / 16 == 4 {
        ipv4_key(p)
    } else if p[0] / 16 == 6 {
        ipv6_key(p)
    } else {
        None
    }
}

/// The key of the frame `p`: as a link-layer frame where that succeeds,
/// otherwise as a bare network-layer packet.
pub open spec fn packet_key(p: Seq<u8>) -> Option<TcpStreamId> {
    match ethernet_key(p) {
        Some(k) => Some(k),
        None => ip_key(p),
    }
}

pub proof fn lemma_span_values()
    ensures
        span(0) == 1,
        span(1) == 0x100,
        span(2) == 0x1_0000,
        span(4) == 0x1_0000_0000,
        span(16) == 0x1_0000_0000_0000_0000_0000_0000_0000_0000,
{
    reveal_with_fuel(span, 17);
}

pub proof fn lemma_span_monotonic(a: nat, b: nat)
    requires
        a <= b,
    ensures
        span(a) <= span(b),
        span(a) >= 1,
    decreases b,
{
    if a < b {
        lemma_span_monotonic(a, (b - 1) as nat);
    } else if a > 0 {
        lemma_span_monotonic((a - 1) as nat, (a - 1) as nat);
    }
}

/// A number written in `n` bytes is below 256 to the power `n`.
pub proof fn lemma_be_value_bound(bytes: Seq<u8>)
    ensures
        be_value(bytes) < span(bytes.len()),
    decreases bytes.len(),
{
    if bytes.len() > 0 {
        lemma_be_value_bound(bytes.drop_last());
    }
}

/// Reading back the bytes that write `v` gives `v`.
pub proof fn lemma_be_round_trip(v: nat, n: nat)
    requires
        v < span(n),
    ensures
        be_bytes(v, n).len() == n,
        be_value(be_bytes(v, n)) == v,
    decreases n,
{
    if n > 0 {
        let rest = be_bytes(v / 256, (n - 1) as nat);
        lemma_be_round_trip(v / 256, (n - 1) as nat);
        assert(be_bytes(v, n).drop_last() =~= rest);
    }
}

/// Whether the bare packet `p` is a TCP packet whose header writes the
/// addresses and ports of `key`, both addresses of one family: for IPv4
/// with a header of at least five words, for IPv6 with TCP directly
/// behind the fixed header.
pub open spec fn carries(p: Seq<u8>, key: TcpStreamId) -> bool {
    &&& key.protocol == IPPROTO_TCP
    &&& p.len() >= 20
    &&& match (key.src_ip, key.dst_ip) {
        (IpAddress::V4(src), IpAddress::V4(dst)) => {
            let h = (p[0] % 16) * 4;
            &&& p[0] / 16 == 4
            &&& h >= 20
            &&& p.len() >= h + 4
            &&& p[9] == IPPROTO_TCP
            &&& p.subrange(12, 16) == be_bytes(src as nat, 4)
            &&& p.subrange(16, 20) == be_bytes(dst as nat, 4)
            &&& p.subrange(h, h + 2) == be_bytes(key.src_port as nat, 2)
            &&& p.subrange(h + 2, h + 4) == be_bytes(key.dst_port as nat, 2)
        },
        (IpAddress::V6(src), IpAddress::V6(dst)) => {
            &&& p[0] / 16 == 6
            &&& p.len() >= 44
            &&& p[6] == IPPROTO_TCP
            &&& p.subrange(8, 24) == be_bytes(src as nat, 16)
            &&& p.subrange(24, 40) == be_bytes(dst as nat, 16)
            &&& p.subrange(40, 42) == be_bytes(key.src_port as nat, 2)
            &&& p.subrange(42, 44) == be_bytes(key.dst_port as nat, 2)
        },
        _ => false,
    }
}

/// The EtherType that announces a packet of the family of `key`.
pub open spec fn ethertype_of(key: TcpStreamId) -> u16 {
    match key.src_ip {
        IpAddress::V4(_) => ETHERTYPE_IPV4,
        IpAddress::V6(_) => ETHERTYPE_IPV6,
    }
}

/// A bare TCP packet of either family is identified by exactly the
/// addresses, ports and protocol that its header writes. Read as a frame
/// of unknown framing it gives the same key, unless its bytes also read
/// as a link-layer frame.
pub proof fn lemma_bare_packet_key(p: Seq<u8>, key: TcpStreamId)
    requires
        carries(p, key),
    ensures
        ip_key(p) == Some(key),
        ethernet_key(p) is None ==> packet_key(p) == Some(key),
{
    lemma_span_values();
    lemma_be_round_trip(key.src_port as nat, 2);
    lemma_be_round_trip(key.dst_port as nat, 2);
    match (key.src_ip, key.dst_ip) {
        (IpAddress::V4(src), IpAddress::V4(dst)) => {
            lemma_be_round_trip(src as nat, 4);
            lemma_be_round_trip(dst as nat, 4);
        },
        (IpAddress::V6(src), IpAddress::V6(dst)) => {
            lemma_be_round_trip(src as nat, 16);
            lemma_be_round_trip(dst as nat, 16);
        },
        _ => {},
    }
}

/// A link-layer frame whose type field announces the family of the TCP
/// packet behind its 14-byte header is identified by exactly the
/// addresses, ports and protocol that the packet's header writes.
pub proof fn lemma_framed_packet_key(frame: Seq<u8>, key: TcpStreamId)
    requires
        frame.len() >= 14,
        frame.subrange(12, 14) == be_bytes(ethertype_of(key) as nat, 2),
        carries(frame.skip(14), key),
    ensures
        ethernet_key(frame) == Some(key),
        packet_key(frame) == Some(key),
{
    lemma_span_values();
    lemma_be_round_trip(ethertype_of(key) as nat, 2);
    lemma_bare_packet_key(frame.skip(14), key);
}

/// The number that the `n` bytes of `p` from `at` write in network order.
pub fn read_be(p: &[u8], at: usize, n: usize) -> (r: u128)
    requires
        n <= 16,
        at + n <= p.len(),
    ensures
        r == be_value(p@.subrange(at as int, at + n)),
{
    let mut acc: u128 = 0;
    let mut i: usize = 0;
    while i < n
        invariant
            i <= n <= 16,
            at + n <= p.len(),
            acc == be_value(p@.subrange(at as int, at + i)),
            acc < span(i as nat),
        decreases n - i,
    {
        proof {
            lemma_span_monotonic((i + 1) as nat, 16);
            lemma_span_values();
            assert(p@.subrange(at as int, at + i + 1).drop_last() =~= p@.subrange(
                at as int,
                at + i,
            ));
        }
        acc = acc * 256 + p[at + i] as u128;
        i += 1;
    }
    acc
}

/// The 16-bit number at `at` in network order.
pub fn read_u16(p: &[u8], at: usize) -> (r: u16)
    requires
        at + 2 <= p.len(),
    ensures
        r == be_value(p@.subrange(at as int, at + 2)),
{
    proof {
        lemma_be_value_bound(p@.subrange(at as int, at + 2));
        lemma_span_values();
    }
    read_be(p, at, 2) as u16
}

/// The 32-bit number at `at` in network order.
pub fn read_u32(p: &[u8], at: usize) -> (r: u32)
    requires
        at + 4 <= p.len(),
    ensures
        r == be_value(p@.subrange(at as int, at + 4)),
{
    proof {
        lemma_be_value_bound(p@.subrange(at as int, at + 4));
        lemma_span_values();
    }
    read_be(p, at, 4) as u32
}

impl IpAddress {
    /// The IPv4 address `a.b.c.d`.
    pub fn v4(a: u8, b: u8, c: u8, d: u8) -> (r: IpAddress)
        ensures
            r == IpAddress::V4(be_value(seq![a, b, c, d]) as u32),
    {
        let bytes: Vec<u8> = vec![a, b, c, d];
        assert(bytes@.subrange(0int, 0int + 4) =~= seq![a, b, c, d]);
        IpAddress::V4(read_u32(bytes.as_slice(), 0))
    }

    /// The IPv6 address whose sixteen bytes are `octets`.
    pub fn v6(octets: [u8; 16]) -> (r: IpAddress)
        ensures
            r == IpAddress::V6(be_value(octets@) as u128),
    {
        let bytes: &[u8] = octets.as_slice();
        assert(bytes@.subrange(0int, 0int + 16) =~= octets@);
        IpAddress::V6(read_be(bytes, 0, 16))
    }
}

impl TcpStreamId {
    /// Reads the key of a captured frame, link-layer framed or bare.
    pub fn from_packet(packet: &[u8]) -> (r: Option<TcpStreamId>)
        ensures
            r == packet_key(packet@),
    {
        match Self::from_ethernet_frame(packet) {
            Some(id) => Some(id),
            None => Self::from_ip_packet(packet),
        }
    }

    /// Reads the key of a link-layer frame.
    pub fn from_ethernet_frame(packet: &[u8]) -> (r: Option<TcpStreamId>)
        ensures
            r == ethernet_key(packet@),
    {
        if packet.len() < 14 {
            return None;
        }
        let ethertype = read_u16(packet, 12);
        let ip_packet: &[u8] = &packet[14..packet.len()];
        assert(ip_packet@ =~= packet@.skip(14));
        if ethertype == ETHERTYPE_IPV4 {
            Self::from_ipv4_packet(ip_packet)
        } else if ethertype == ETHERTYPE_IPV6 {
            Self::from_ipv6_packet(ip_packet)
        } else {
            None
        }
    }

    /// Reads the key of a bare network-layer packet.
    pub fn from_ip_packet(packet: &[u8]) -> (r: Option<TcpStreamId>)
        ensures
            r == ip_key(packet@),
    {
        if packet.len() == 0 {
            return None;
        }
        let first: u8 = packet[0];
        let version: u8 = (first >> 4) & 0x0F;
        assert(version == first / 16) by (bit_vector)
            requires
                version == (first >> 4) & 0x0F,
        ;
        if version == 4 {
            Self::from_ipv4_packet(packet)
        } else if version == 6 {
            Self::from_ipv6_packet(packet)
        } else {
            None
        }
    }

    /// Reads the key of an IPv4 packet.
    pub fn from_ipv4_packet(packet: &[u8]) -> (r: Option<TcpStreamId>)
        ensures
            r == ipv4_key(packet@),
    {
        if packet.len() < 20 {
            return None;
        }
        let protocol: u8 = packet[9];
        if protocol != IPPROTO_TCP {
            return None;
        }
        let first: u8 = packet[0];
        let words: u8 = first & 0x0F;
        assert(words == first % 16) by (bit_vector)
            requires
                words == first & 0x0F,
        ;
        let ihl: usize = words as usize * 4;
        if packet.len() < ihl + 4 {
            return None;
        }
        Some(
            TcpStreamId {
                src_ip: IpAddress::V4(read_u32(packet, 12)),
                dst_ip: IpAddress::V4(read_u32(packet, 16)),
                src_port: read_u16(packet, ihl),
                dst_port: read_u16(packet, ihl + 2),
                protocol,
            },
        )
    }

    /// Reads the key of an IPv6 packet.
    pub fn from_ipv6_packet(packet: &[u8]) -> (r: Option<TcpStreamId>)
        ensures
            r == ipv6_key(packet@),
    {
        if packet.len() < 40 {
            return None;
        }
        let next_header: u8 = packet[6];
        if next_header != IPPROTO_TCP {
            return None;
        }
        if packet.len() - 40 < 4 {
            return None;
        }
        Some(
            TcpStreamId {
                src_ip: IpAddress::V6(read_be(packet, 8, 16)),
                dst_ip: IpAddress::V6(read_be(packet, 24, 16)),
                src_port: read_u16(packet, 40),
                dst_port: read_u16(packet, 42),
                protocol: next_header,
            },
        )
    }
}

} // verus!
