//! The wire format: address-resolution requests as they are sent, and the
//! replies that are read from the link.
//!
//! A frame is a 14-byte link-layer header (destination, source, payload
//! type) and a 28-byte address-resolution record (hardware type, protocol
//! type, the two address lengths, operation, sender hardware and protocol
//! address, target hardware and protocol address). Numbers of more than one
//! byte are big-endian.

use vstd::prelude::*;

use crate::address::{lemma_octets_spell_address, HardwareAddress, NetworkAddress};
use crate::registry::DiscoveredHost;

verus! {

/// The length of a frame that holds an address-resolution record.
pub const FRAME_LEN: usize = 42;

/// The hardware address that every station listens to.
pub open spec fn broadcast_hardware() -> HardwareAddress {
    HardwareAddress(0xff, 0xff, 0xff, 0xff, 0xff, 0xff)
}

/// The hardware address of nobody.
pub open spec fn zero_hardware() -> HardwareAddress {
    HardwareAddress(0, 0, 0, 0, 0, 0)
}

/// The payload type of address resolution, 0x0806.
pub open spec fn payload_type_arp() -> Seq<u8> {
    seq![0x08u8, 0x06u8]
}

/// What every record for IPv4 over Ethernet begins with: hardware type 1,
/// protocol type 0x0800, hardware addresses of 6 bytes and protocol
/// addresses of 4.
pub open spec fn record_head() -> Seq<u8> {
    seq![0x00u8, 0x01u8, 0x08u8, 0x00u8, 0x06u8, 0x04u8]
}

/// The operation "request", 1.
pub open spec fn operation_request() -> Seq<u8> {
    seq![0x00u8, 0x01u8]
}

/// The operation "reply", 2.
pub open spec fn operation_reply() -> Seq<u8> {
    seq![0x00u8, 0x02u8]
}

/// The frame that asks every station who has `target`, in the name of the
/// station with the given hardware and network address.
pub open spec fn request_frame(
    source_hardware: HardwareAddress,
    source: NetworkAddress,
    target: NetworkAddress,
) -> Seq<u8> {
    broadcast_hardware().octets_spec() + source_hardware.octets_spec() + payload_type_arp()
        + record_head() + operation_request() + source_hardware.octets_spec()
        + source.octets_spec() + zero_hardware().octets_spec() + target.octets_spec()
}

/// Whether a frame is a reply of address resolution: long enough for the
/// header and the record, of that payload type, with that operation.
pub open spec fn is_reply(frame: Seq<u8>) -> bool {
    &&& frame.len() >= 42
    &&& frame.subrange(12, 14) == payload_type_arp()
    &&& frame.subrange(20, 22) == operation_reply()
}

/// The sender that a frame of 42 bytes or more names.
pub open spec fn sender_of(frame: Seq<u8>) -> DiscoveredHost {
    DiscoveredHost {
        address: NetworkAddress::of_octets(frame[28], frame[29], frame[30], frame[31]),
        hardware: HardwareAddress(
            frame[22],
            frame[23],
            frame[24],
            frame[25],
            frame[26],
            frame[27],
        ),
    }
}

/// What a frame tells: the sender of a reply; nothing for any other frame.
pub open spec fn decoded(frame: Seq<u8>) -> Option<DiscoveredHost> {
    if is_reply(frame) {
        Some(sender_of(frame))
    } else {
        None
    }
}

/// The reply that the owner of the address asked for would send, as far as
/// it is read: the request with the operation "reply", and with the owner's
/// hardware address and the address asked for as the sender.
pub open spec fn synthetic_reply(request: Seq<u8>, hardware: HardwareAddress) -> Seq<u8> {
    request.subrange(0, 20) + operation_reply() + hardware.octets_spec() + request.subrange(38, 42)
        + request.subrange(32, 38) + request.subrange(28, 32)
}

/// Builds the request for `target`.
pub fn encode(
    source_hardware: HardwareAddress,
    source: NetworkAddress,
    target: NetworkAddress,
) -> (frame: [u8; 42])
    ensures
        frame@ == request_frame(source_hardware, source, target),
{
    let h = source_hardware.octets();
    let s = source.octets();
    let t = target.octets();
    let frame: [u8; 42] = [
        0xff, 0xff, 0xff, 0xff, 0xff, 0xff,
        h[0], h[1], h[2], h[3], h[4], h[5],
        0x08, 0x06,
        0x00, 0x01,
        0x08, 0x00,
        0x06,
        0x04,
        0x00, 0x01,
        h[0], h[1], h[2], h[3], h[4], h[5],
        s[0], s[1], s[2], s[3],
        0x00, 0x00, 0x00, 0x00, 0x00, 0x00,
        t[0], t[1], t[2], t[3],
    ];
    assert(frame@ =~= request_frame(source_hardware, source, target));
    frame
}

/// Reads a frame from the link. Only a reply tells of a host; a frame that
/// is too short, of another payload type or with another operation tells
/// nothing, and is no error.
pub fn decode(frame: &[u8]) -> (r: Option<DiscoveredHost>)
    ensures
        r == decoded(frame@),
{
    if frame.len() < FRAME_LEN {
        return None;
    }
    if frame[12] != 0x08 || frame[13] != 0x06 {
        assert(frame@.subrange(12, 14)[0] == frame@[12]);
        assert(frame@.subrange(12, 14)[1] == frame@[13]);
        return None;
    }
    if frame[20] != 0x00 || frame[21] != 0x02 {
        assert(frame@.subrange(20, 22)[0] == frame@[20]);
        assert(frame@.subrange(20, 22)[1] == frame@[21]);
        return None;
    }
    assert(frame@.subrange(12, 14) =~= payload_type_arp());
    assert(frame@.subrange(20, 22) =~= operation_reply());
    Some(
        DiscoveredHost {
            address: NetworkAddress::new(frame[28], frame[29], frame[30], frame[31]),
            hardware: HardwareAddress(
                frame[22],
                frame[23],
                frame[24],
                frame[25],
                frame[26],
                frame[27],
            ),
        },
    )
}

/// A request tells of no host.
pub proof fn lemma_request_is_no_reply(
    source_hardware: HardwareAddress,
    source: NetworkAddress,
    target: NetworkAddress,
)
    ensures
        request_frame(source_hardware, source, target).len() == 42,
        decoded(request_frame(source_hardware, source, target)) is None,
{
    let f = request_frame(source_hardware, source, target);
    assert(f.subrange(20, 22)[1] == f[21]);
}

/// What is encoded is read back: the answer to a request, from the station
/// with the hardware address `reply_hardware`, tells of the address that
/// was asked for and of that hardware address.
pub proof fn lemma_reply_round_trip(
    source_hardware: HardwareAddress,
    source: NetworkAddress,
    target: NetworkAddress,
    reply_hardware: HardwareAddress,
)
    ensures
        decoded(
            synthetic_reply(request_frame(source_hardware, source, target), reply_hardware),
        ) == Some(DiscoveredHost { address: target, hardware: reply_hardware }),
{
    let q = request_frame(source_hardware, source, target);
    let f = synthetic_reply(q, reply_hardware);
    assert(q.len() == 42);
    assert(f.len() == 42);
    assert(f.subrange(12, 14) =~= payload_type_arp());
    assert(f.subrange(20, 22) =~= operation_reply());
    let o = target.octets_spec();
    assert(f[28] == o[0] && f[29] == o[1] && f[30] == o[2] && f[31] == o[3]);
    lemma_octets_spell_address(target);
}

} // verus!
