//! The session configuration exchange.
//!
//! Right after the transport handshake the server sends one 14-byte
//! configuration frame, raw on the wire with no length prefix: the client's
//! virtual address, the gateway address, the netmask (each as four
//! big-endian octets) and the MTU (two little-endian bytes). Only framed
//! packets follow it in either direction.

use vstd::prelude::*;
use crate::packet_stream::{TaggedPacketReceiver, TaggedPacketSender};

verus! {

/// The four big-endian octets of a 32-bit address.
pub open spec fn be_bytes_of_u32(x: u32) -> Seq<u8> {
    seq![(x >> 24u32) as u8, (x >> 16u32) as u8, (x >> 8u32) as u8, x as u8]
}

/// The address encoded by four big-endian octets.
pub open spec fn u32_of_be_bytes(b0: u8, b1: u8, b2: u8, b3: u8) -> u32 {
    ((b0 as u32) << 24u32) | ((b1 as u32) << 16u32) | ((b2 as u32) << 8u32) | (b3 as u32)
}

/// The two little-endian bytes of a 16-bit value.
pub open spec fn le_bytes_of_u16(x: u16) -> Seq<u8> {
    seq![x as u8, (x >> 8u16) as u8]
}

/// The value encoded by two little-endian bytes.
pub open spec fn u16_of_le_bytes(b0: u8, b1: u8) -> u16 {
    (b0 as u16) | ((b1 as u16) << 8u16)
}

proof fn lemma_u32_be_round_trip(x: u32)
    ensures
        u32_of_be_bytes((x >> 24u32) as u8, (x >> 16u32) as u8, (x >> 8u32) as u8, x as u8) == x,
{
    assert(((((x >> 24u32) as u8) as u32) << 24u32) | ((((x >> 16u32) as u8) as u32) << 16u32) | ((((
    x >> 8u32) as u8) as u32) << 8u32) | ((x as u8) as u32) == x) by (bit_vector);
}

proof fn lemma_u16_le_round_trip(x: u16)
    ensures
        u16_of_le_bytes(x as u8, (x >> 8u16) as u8) == x,
{
    assert(((x as u8) as u16) | ((((x >> 8u16) as u8) as u16) << 8u16) == x) by (bit_vector);
}

/// What the server tells a client at session start.
#[derive(Clone, Copy, Debug, PartialEq, Eq, Structural)]
pub struct NetworkConfig {
    /// The client's assigned virtual address.
    pub client_ip: u32,
    /// The server's own virtual address, the gateway.
    pub server_ip: u32,
    /// The netmask of the virtual subnet.
    pub netmask: u32,
    /// The maximum transfer unit of the tunnel.
    pub mtu: u16,
}

impl NetworkConfig {
    /// Size of the encoded frame on the wire.
    pub const BYTE_SIZE: usize = 14;
}

/// The 14-byte wire encoding of a configuration.
pub open spec fn config_bytes(c: NetworkConfig) -> Seq<u8> {
    be_bytes_of_u32(c.client_ip) + be_bytes_of_u32(c.server_ip) + be_bytes_of_u32(c.netmask)
        + le_bytes_of_u16(c.mtu)
}

/// The configuration encoded by a 14-byte frame.
pub open spec fn config_of_bytes(s: Seq<u8>) -> NetworkConfig {
    NetworkConfig {
        client_ip: u32_of_be_bytes(s[0], s[1], s[2], s[3]),
        server_ip: u32_of_be_bytes(s[4], s[5], s[6], s[7]),
        netmask: u32_of_be_bytes(s[8], s[9], s[10], s[11]),
        mtu: u16_of_le_bytes(s[12], s[13]),
    }
}

/// Configuration frame fidelity: the encoding is exactly 14 bytes and
/// decoding it recovers the configuration.
pub proof fn lemma_config_round_trip(c: NetworkConfig)
    ensures
        config_bytes(c).len() == 14,
        config_of_bytes(config_bytes(c)) == c,
{
    lemma_u32_be_round_trip(c.client_ip);
    lemma_u32_be_round_trip(c.server_ip);
    lemma_u32_be_round_trip(c.netmask);
    lemma_u16_le_round_trip(c.mtu);
}

/// Errors of the configuration exchange.
#[derive(Clone, Copy, Debug, PartialEq, Eq, Structural)]
pub enum ProtocolError {
    /// A configuration frame must be exactly 14 bytes.
    ConfigSizeMismatch,
}

/// Encodes a configuration as its 14-byte frame.
pub fn encode_config(c: &NetworkConfig) -> (v: Vec<u8>)
    ensures
        v@ == config_bytes(*c),
        v@.len() == 14,
{
    let mut v: Vec<u8> = Vec::new();
    v.push((c.client_ip >> 24) as u8);
    v.push((c.client_ip >> 16) as u8);
    v.push((c.client_ip >> 8) as u8);
    v.push(c.client_ip as u8);
    v.push((c.server_ip >> 24) as u8);
    v.push((c.server_ip >> 16) as u8);
    v.push((c.server_ip >> 8) as u8);
    v.push(c.server_ip as u8);
    v.push((c.netmask >> 24) as u8);
    v.push((c.netmask >> 16) as u8);
    v.push((c.netmask >> 8) as u8);
    v.push(c.netmask as u8);
    v.push(c.mtu as u8);
    v.push((c.mtu >> 8) as u8);
    proof {
        assert(v@ =~= config_bytes(*c));
    }
    v
}

/// Decodes a 14-byte frame; any other length is a size mismatch.
pub fn decode_config(bytes: &[u8]) -> (r: Result<NetworkConfig, ProtocolError>)
    ensures
        r is Ok <==> bytes@.len() == 14,
        r is Ok ==> r->Ok_0 == config_of_bytes(bytes@),
        r is Err ==> r->Err_0 == ProtocolError::ConfigSizeMismatch,
{
    if bytes.len() != 14 {
        return Err(ProtocolError::ConfigSizeMismatch);
    }
    Ok(
        NetworkConfig {
            client_ip: ((bytes[0] as u32) << 24) | ((bytes[1] as u32) << 16) | ((bytes[2] as u32)
                << 8) | (bytes[3] as u32),
            server_ip: ((bytes[4] as u32) << 24) | ((bytes[5] as u32) << 16) | ((bytes[6] as u32)
                << 8) | (bytes[7] as u32),
            netmask: ((bytes[8] as u32) << 24) | ((bytes[9] as u32) << 16) | ((bytes[10] as u32)
                << 8) | (bytes[11] as u32),
            mtu: (bytes[12] as u16) | ((bytes[13] as u16) << 8),
        },
    )
}

/// A protocol connection: the byte stream seen as an outgoing queue and an
/// incoming buffer, which exchanges the configuration frame first and then
/// splits into a framed-packet sender and receiver.
pub struct Connection {
    sender: TaggedPacketSender,
    receiver: TaggedPacketReceiver,
}

impl Connection {
    /// The bytes queued to go out on the stream.
    pub closed spec fn outgoing(&self) -> Seq<u8> {
        self.sender.pending()
    }

    /// The bytes received from the stream and not yet consumed.
    pub closed spec fn incoming(&self) -> Seq<u8> {
        self.receiver.buffered()
    }

    /// A fresh connection with empty buffers.
    pub fn new() -> (r: Connection)
        ensures
            r.outgoing() == Seq::<u8>::empty(),
            r.incoming() == Seq::<u8>::empty(),
    {
        Connection { sender: TaggedPacketSender::new(), receiver: TaggedPacketReceiver::new() }
    }

    /// Queues the 14-byte configuration frame, raw with no length prefix.
    pub fn send_config(&mut self, config: &NetworkConfig)
        ensures
            final(self).outgoing() == old(self).outgoing() + config_bytes(*config),
            final(self).incoming() == old(self).incoming(),
    {
        let bytes = encode_config(config);
        self.sender.queue_raw(bytes.as_slice());
    }

    /// Consumes the first 14 buffered bytes as the configuration frame, or
    /// returns `None` until that many bytes have arrived.
    pub fn receive_config(&mut self) -> (r: Option<NetworkConfig>)
        ensures
            old(self).incoming().len() >= 14 ==> r == Some(
                config_of_bytes(old(self).incoming().subrange(0, 14)),
            ) && final(self).incoming() == old(self).incoming().subrange(
                14,
                old(self).incoming().len() as int,
            ),
            old(self).incoming().len() < 14 ==> r is None && *final(self) == *old(self),
            final(self).outgoing() == old(self).outgoing(),
    {
        let head = self.receiver.take_raw(14);
        match head {
            Some(bytes) => {
                match decode_config(bytes.as_slice()) {
                    Ok(c) => Some(c),
                    Err(_) => {
                        proof {
                            assert(false);
                        }
                        None
                    },
                }
            },
            None => None,
        }
    }

    /// Appends bytes read from the stream.
    pub fn feed(&mut self, chunk: &[u8])
        ensures
            final(self).incoming() == old(self).incoming() + chunk@,
            final(self).outgoing() == old(self).outgoing(),
    {
        self.receiver.feed(chunk);
    }

    /// Hands over the queued outgoing bytes for the stream to write.
    pub fn take_output(&mut self) -> (out: Vec<u8>)
        ensures
            out@ == old(self).outgoing(),
            final(self).outgoing() == Seq::<u8>::empty(),
            final(self).incoming() == old(self).incoming(),
    {
        self.sender.take_output()
    }

    /// Splits the connection into its framed-packet sender and receiver;
    /// both keep their buffered bytes.
    pub fn into_parts(self) -> (r: (TaggedPacketSender, TaggedPacketReceiver))
        ensures
            r.0.pending() == self.outgoing(),
            r.1.buffered() == self.incoming(),
    {
        (self.sender, self.receiver)
    }
}

} // verus!
