//! Discovery probes: broadcast address-resolution requests over Ethernet, and the
//! replies to them.
//!
//! A frame is an Ethernet II header (destination, source, ether type) followed by an
//! address-resolution packet for IPv4 over Ethernet, padded with zeros to the minimum
//! frame size. Multi-byte fields are big-endian.
use vstd::prelude::*;

verus! {

/// The length of a probe frame: the minimum Ethernet frame without its checksum.
pub const FRAME_LEN: usize = 60;

/// The shortest frame that holds a whole reply: Ethernet header and resolution packet.
pub const MIN_REPLY_LEN: usize = 42;

/// The ether type of address resolution.
pub const ETHERTYPE_ARP: u16 = 0x0806;

/// The ether type of IPv4, the protocol type that probes resolve.
pub const ETHERTYPE_IPV4: u16 = 0x0800;

/// The operation code of a request.
pub const OP_REQUEST: u16 = 1;

/// The operation code of a reply.
pub const OP_REPLY: u16 = 2;

/// The broadcast hardware address.
pub open spec fn broadcast() -> Seq<u8> {
    seq![0xffu8, 0xffu8, 0xffu8, 0xffu8, 0xffu8, 0xffu8]
}

/// A 16-bit value, big-endian.
pub open spec fn be16(x: u16) -> Seq<u8> {
    seq![(x >> 8u16) as u8, (x & 0xffu16) as u8]
}

/// A 32-bit value, big-endian.
pub open spec fn be32(x: u32) -> Seq<u8> {
    seq![(x >> 24u32) as u8, ((x >> 16u32) & 0xffu32) as u8, ((x >> 8u32) & 0xffu32) as u8, (x & 0xffu32) as u8]
}

/// The 16-bit big-endian value at `i`.
pub open spec fn read_be16(f: Seq<u8>, i: int) -> u16 {
    ((f[i] as u16) * 256 + (f[i + 1] as u16)) as u16
}

/// The 32-bit big-endian value at `i`.
pub open spec fn read_be32(f: Seq<u8>, i: int) -> u32 {
    ((f[i] as u32) * 16777216 + (f[i + 1] as u32) * 65536 + (f[i + 2] as u32) * 256 + (f[i + 3] as u32)) as u32
}

/// The probe that `mac`/`ip` broadcasts to ask who holds `target`.
pub open spec fn probe_frame(mac: Seq<u8>, ip: u32, target: u32) -> Seq<u8> {
    broadcast() + mac + be16(ETHERTYPE_ARP)
        + be16(1u16) + be16(ETHERTYPE_IPV4) + seq![6u8, 4u8] + be16(OP_REQUEST)
        + mac + be32(ip) + broadcast() + be32(target)
        + Seq::new(18, |i: int| 0u8)
}

/// The protocol address that a frame reports as having answered a probe, if the frame is
/// a whole resolution reply.
pub open spec fn reply_sender_of(f: Seq<u8>) -> Option<u32> {
    if f.len() >= MIN_REPLY_LEN && read_be16(f, 12) == ETHERTYPE_ARP && read_be16(f, 20) == OP_REPLY {
        Some(read_be32(f, 28))
    } else {
        None
    }
}

fn push_be16(v: &mut Vec<u8>, x: u16)
    ensures
        final(v)@ == old(v)@ + be16(x),
{
    v.push((x >> 8u16) as u8);
    v.push((x & 0xffu16) as u8);
    assert(final(v)@ =~= old(v)@ + be16(x));
}

fn push_be32(v: &mut Vec<u8>, x: u32)
    ensures
        final(v)@ == old(v)@ + be32(x),
{
    v.push((x >> 24u32) as u8);
    v.push(((x >> 16u32) & 0xffu32) as u8);
    v.push(((x >> 8u32) & 0xffu32) as u8);
    v.push((x & 0xffu32) as u8);
    assert(final(v)@ =~= old(v)@ + be32(x));
}

fn push_bytes(v: &mut Vec<u8>, b: &[u8; 6])
    ensures
        final(v)@ == old(v)@ + b@,
{
    let mut i: usize = 0;
    while i < 6
        invariant
            i <= 6,
            v@ == old(v)@ + b@.subrange(0, i as int),
        decreases 6 - i,
    {
        v.push(b[i]);
        assert(v@ =~= old(v)@ + b@.subrange(0, i + 1));
        i = i + 1;
    }
    assert(b@.subrange(0, 6) =~= b@);
}

/// Builds the probe that a host with hardware address `mac` and protocol address `ip`
/// broadcasts to ask who holds `target`.
pub fn build_probe(mac: &[u8; 6], ip: u32, target: u32) -> (r: Vec<u8>)
    ensures
        r@ == probe_frame(mac@, ip, target),
        r@.len() == FRAME_LEN,
{
    let bcast: [u8; 6] = [0xff, 0xff, 0xff, 0xff, 0xff, 0xff];
    assert(bcast@ =~= broadcast());
    let mut f: Vec<u8> = Vec::new();
    push_bytes(&mut f, &bcast);
    push_bytes(&mut f, mac);
    push_be16(&mut f, ETHERTYPE_ARP);
    push_be16(&mut f, 1);
    push_be16(&mut f, ETHERTYPE_IPV4);
    f.push(6);
    f.push(4);
    push_be16(&mut f, OP_REQUEST);
    push_bytes(&mut f, mac);
    push_be32(&mut f, ip);
    push_bytes(&mut f, &bcast);
    push_be32(&mut f, target);
    let ghost head = f@;
    let mut i: usize = 0;
    while i < 18
        invariant
            i <= 18,
            f@ == head + Seq::new(i as nat, |j: int| 0u8),
        decreases 18 - i,
    {
        f.push(0);
        assert(f@ =~= head + Seq::new((i + 1) as nat, |j: int| 0u8));
        i = i + 1;
    }
    assert(f@ =~= probe_frame(mac@, ip, target));
    f
}

/// One probe per target address, in the order of the targets.
pub fn build_probes(mac: &[u8; 6], ip: u32, targets: &Vec<u32>) -> (r: Vec<Vec<u8>>)
    ensures
        r@.len() == targets@.len(),
        forall|i: int| 0 <= i < targets@.len() ==> (#[trigger] r@[i])@ == probe_frame(mac@, ip, targets@[i]),
{
    let mut out: Vec<Vec<u8>> = Vec::new();
    let mut i: usize = 0;
    while i < targets.len()
        invariant
            i <= targets@.len(),
            out@.len() == i,
            forall|j: int| 0 <= j < i ==> (#[trigger] out@[j])@ == probe_frame(mac@, ip, targets@[j]),
        decreases targets@.len() - i,
    {
        out.push(build_probe(mac, ip, targets[i]));
        i = i + 1;
    }
    out
}

/// The protocol address a probe is sent from: the last IPv4 address of the interface,
/// or `0.0.0.0` when it has none.
pub fn sender_address(ipv4: &Vec<u32>) -> (r: u32)
    ensures
        r == if ipv4@.len() == 0 { 0u32 } else { ipv4@.last() },
{
    if ipv4.len() == 0 {
        0
    } else {
        ipv4[ipv4.len() - 1]
    }
}

/// The responder of a received frame: its sender protocol address when the frame is a
/// whole resolution reply, and nothing for any other frame, short ones included.
pub fn reply_sender(frame: &[u8]) -> (r: Option<u32>)
    ensures
        r == reply_sender_of(frame@),
{
    if frame.len() < MIN_REPLY_LEN {
        return None;
    }
    let ethertype: u16 = (frame[12] as u16) * 256 + (frame[13] as u16);
    let op: u16 = (frame[20] as u16) * 256 + (frame[21] as u16);
    if ethertype != ETHERTYPE_ARP || op != OP_REPLY {
        return None;
    }
    let sender: u32 = (frame[28] as u32) * 16777216 + (frame[29] as u32) * 65536 + (frame[30] as u32) * 256
        + (frame[31] as u32);
    Some(sender)
}

} // verus!
