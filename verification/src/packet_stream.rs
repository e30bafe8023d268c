//! Length-prefixed packet framing over a byte stream.
//!
//! A framed packet is a 2-byte little-endian length `N` (at most 65 535)
//! followed by exactly `N` bytes of payload. The sender queues framed bytes
//! in an output buffer; the receiver consumes a buffer of received bytes and
//! extracts one whole packet at a time, so partial reads can be fed in as
//! they arrive.

use vstd::prelude::*;
use vstd::arithmetic::div_mod::lemma_fundamental_div_mod;

verus! {

/// Largest payload a frame can carry.
pub const MAX_PACKET_LEN: usize = 65535;

/// Errors of the packet codec.
#[derive(Clone, Copy, Debug, PartialEq, Eq, Structural)]
pub enum CodecError {
    /// The payload does not fit in the 16-bit length prefix.
    PayloadTooLarge,
    /// The stream ended in the middle of a frame.
    UnexpectedEof,
}

/// The framing of payload `p`: two little-endian length bytes, then `p`.
/// Meaningful for `p.len() <= 65535`.
pub open spec fn frame_bytes(p: Seq<u8>) -> Seq<u8> {
    seq![(p.len() % 256) as u8, ((p.len() / 256) as u8)] + p
}

/// The payload length announced by the first two bytes of `s`.
/// Meaningful for `s.len() >= 2`.
pub open spec fn frame_len(s: Seq<u8>) -> int {
    s[0] + 256 * s[1]
}

/// True when `s` starts with one complete frame.
pub open spec fn has_frame(s: Seq<u8>) -> bool {
    s.len() >= 2 && s.len() >= 2 + frame_len(s)
}

/// The payload of the first frame of `s`.
pub open spec fn frame_payload(s: Seq<u8>) -> Seq<u8> {
    s.subrange(2, 2 + frame_len(s))
}

/// What remains of `s` after its first frame.
pub open spec fn frame_rest(s: Seq<u8>) -> Seq<u8> {
    s.subrange(2 + frame_len(s), s.len() as int)
}

/// Framing round-trip: a frame followed by anything is recognized, decodes
/// to exactly its payload, and leaves exactly what followed it. A strict
/// prefix of the frame is not recognized, so a truncated stream is left in
/// the buffer and surfaces as `UnexpectedEof` at end of stream.
pub proof fn lemma_frame_round_trip(p: Seq<u8>, rest: Seq<u8>)
    requires
        p.len() <= 65535,
    ensures
        frame_bytes(p).len() == p.len() + 2,
        has_frame(frame_bytes(p) + rest),
        frame_payload(frame_bytes(p) + rest) == p,
        frame_rest(frame_bytes(p) + rest) == rest,
        forall|s: Seq<u8>| s.len() < frame_bytes(p).len() && s == frame_bytes(p).subrange(
            0,
            s.len() as int,
        ) ==> !has_frame(s),
{
    let s = frame_bytes(p) + rest;
    lemma_fundamental_div_mod(p.len() as int, 256);
    assert(p.len() / 256 < 256);
    assert(s[0] == (p.len() % 256) as u8);
    assert(s[1] == (p.len() / 256) as u8);
    assert(frame_len(s) == p.len());
    assert(frame_payload(s) =~= p);
    assert(frame_rest(s) =~= rest);
    assert forall|t: Seq<u8>|
        t.len() < frame_bytes(p).len() && t == frame_bytes(p).subrange(
            0,
            t.len() as int,
        ) implies !has_frame(t) by {
        if t.len() >= 2 {
            assert(t[0] == frame_bytes(p)[0]);
            assert(t[1] == frame_bytes(p)[1]);
            assert(frame_len(t) == p.len());
        }
    }
}

/// Queues packets as framed bytes for some byte sink to drain.
pub struct TaggedPacketSender {
    output: Vec<u8>,
}

impl TaggedPacketSender {
    /// The framed bytes queued so far and not yet taken.
    pub closed spec fn pending(&self) -> Seq<u8> {
        self.output@
    }

    /// A fresh sender with nothing queued.
    pub fn new() -> (r: TaggedPacketSender)
        ensures
            r.pending() == Seq::<u8>::empty(),
    {
        TaggedPacketSender { output: Vec::new() }
    }

    /// Frames one packet and queues it. Rejects a payload longer than
    /// 65 535 bytes and queues nothing in that case.
    pub fn send(&mut self, packet: &[u8]) -> (r: Result<(), CodecError>)
        ensures
            match r {
                Ok(()) => packet@.len() <= 65535 && final(self).pending() == old(self).pending()
                    + frame_bytes(packet@),
                Err(e) => e == CodecError::PayloadTooLarge && packet@.len() > 65535 && *final(self)
                    == *old(self),
            },
    {
        if packet.len() > MAX_PACKET_LEN {
            return Err(CodecError::PayloadTooLarge);
        }
        let len = packet.len();
        self.output.push((len % 256) as u8);
        self.output.push((len / 256) as u8);
        self.output.extend_from_slice(packet);
        proof {
            assert(self.output@ =~= old(self).output@ + frame_bytes(packet@));
        }
        Ok(())
    }

    /// Queues bytes as they are, with no length prefix; the configuration
    /// exchange sends its frame raw this way.
    pub(crate) fn queue_raw(&mut self, bytes: &[u8])
        ensures
            final(self).pending() == old(self).pending() + bytes@,
    {
        self.output.extend_from_slice(bytes);
    }

    /// Hands over everything queued; the sender is empty afterwards.
    pub fn take_output(&mut self) -> (out: Vec<u8>)
        ensures
            out@ == old(self).pending(),
            final(self).pending() == Seq::<u8>::empty(),
    {
        let mut out: Vec<u8> = Vec::new();
        core::mem::swap(&mut out, &mut self.output);
        out
    }
}

/// Reassembles framed packets from a stream of byte chunks.
pub struct TaggedPacketReceiver {
    buffer: Vec<u8>,
}

impl TaggedPacketReceiver {
    /// The received bytes not yet decoded.
    pub closed spec fn buffered(&self) -> Seq<u8> {
        self.buffer@
    }

    /// A fresh receiver with an empty buffer.
    pub fn new() -> (r: TaggedPacketReceiver)
        ensures
            r.buffered() == Seq::<u8>::empty(),
    {
        TaggedPacketReceiver { buffer: Vec::new() }
    }

    /// Appends bytes read from the stream to the buffer.
    pub fn feed(&mut self, chunk: &[u8])
        ensures
            final(self).buffered() == old(self).buffered() + chunk@,
    {
        self.buffer.extend_from_slice(chunk);
    }

    /// Extracts the first complete frame of the buffer, or returns `None`
    /// when no whole frame has arrived yet.
    pub fn try_receive(&mut self) -> (r: Option<Vec<u8>>)
        ensures
            has_frame(old(self).buffered()) ==> r is Some && r->0@ == frame_payload(
                old(self).buffered(),
            ) && final(self).buffered() == frame_rest(old(self).buffered()),
            !has_frame(old(self).buffered()) ==> r is None && *final(self) == *old(self),
    {
        if self.buffer.len() < 2 {
            return None;
        }
        let n: usize = self.buffer[0] as usize + 256 * (self.buffer[1] as usize);
        assert(n == frame_len(self.buffer@));
        if self.buffer.len() < 2 + n {
            return None;
        }
        let mut payload: Vec<u8> = Vec::new();
        let mut i: usize = 0;
        while i < n
            invariant
                i <= n,
                n <= 65535,
                2 + n <= self.buffer@.len(),
                payload@ == self.buffer@.subrange(2, 2 + i as int),
            decreases n - i,
        {
            payload.push(self.buffer[2 + i]);
            proof {
                assert(payload@ =~= self.buffer@.subrange(2, 2 + (i + 1) as int));
            }
            i = i + 1;
        }
        let mut rest: Vec<u8> = Vec::new();
        let mut j: usize = 2 + n;
        while j < self.buffer.len()
            invariant
                n <= 65535,
                2 + n <= j <= self.buffer@.len(),
                self.buffer@.len() <= usize::MAX,
                rest@ == self.buffer@.subrange(2 + n as int, j as int),
            decreases self.buffer@.len() - j,
        {
            rest.push(self.buffer[j]);
            proof {
                assert(rest@ =~= self.buffer@.subrange(2 + n as int, j + 1 as int));
            }
            j = j + 1;
        }
        proof {
            assert(payload@ =~= frame_payload(self.buffer@));
            assert(rest@ =~= frame_rest(self.buffer@));
        }
        self.buffer = rest;
        Some(payload)
    }

    /// Consumes the first `n` buffered bytes as they are, or returns `None`
    /// until that many bytes have arrived; the configuration exchange reads
    /// its frame raw this way.
    pub(crate) fn take_raw(&mut self, n: usize) -> (r: Option<Vec<u8>>)
        ensures
            old(self).buffered().len() >= n ==> r is Some && r->0@ == old(
                self,
            ).buffered().subrange(0, n as int) && final(self).buffered() == old(
                self,
            ).buffered().subrange(n as int, old(self).buffered().len() as int),
            old(self).buffered().len() < n ==> r is None && *final(self) == *old(self),
    {
        if self.buffer.len() < n {
            return None;
        }
        let mut head: Vec<u8> = Vec::new();
        let mut i: usize = 0;
        while i < n
            invariant
                i <= n <= self.buffer@.len(),
                head@ == self.buffer@.subrange(0, i as int),
            decreases n - i,
        {
            head.push(self.buffer[i]);
            proof {
                assert(head@ =~= self.buffer@.subrange(0, i + 1 as int));
            }
            i = i + 1;
        }
        let mut rest: Vec<u8> = Vec::new();
        let mut j: usize = n;
        while j < self.buffer.len()
            invariant
                n <= j <= self.buffer@.len(),
                self.buffer@.len() <= usize::MAX,
                rest@ == self.buffer@.subrange(n as int, j as int),
            decreases self.buffer@.len() - j,
        {
            rest.push(self.buffer[j]);
            proof {
                assert(rest@ =~= self.buffer@.subrange(n as int, j + 1 as int));
            }
            j = j + 1;
        }
        proof {
            assert(rest@ =~= self.buffer@.subrange(n as int, self.buffer@.len() as int));
        }
        self.buffer = rest;
        Some(head)
    }

    /// Reports how the stream may end: cleanly when nothing is buffered, or
    /// as a premature end of file when a partial frame remains.
    pub fn finish(&self) -> (r: Result<(), CodecError>)
        ensures
            r is Ok <==> self.buffered().len() == 0,
            r is Err ==> r->Err_0 == CodecError::UnexpectedEof,
    {
        if self.buffer.len() == 0 {
            Ok(())
        } else {
            Err(CodecError::UnexpectedEof)
        }
    }
}

/// Cuts whole datagrams out of a read buffer for a datagram device read up
/// to a fixed maximum transfer unit at a time.
pub struct TunReceiver {
    mtu: usize,
}

impl TunReceiver {
    /// The maximum transfer unit this receiver reads with.
    pub closed spec fn spec_mtu(&self) -> usize {
        self.mtu
    }

    /// A receiver for datagrams of at most `mtu` bytes.
    pub fn new(mtu: usize) -> (r: TunReceiver)
        ensures
            r.spec_mtu() == mtu,
    {
        TunReceiver { mtu }
    }

    /// The buffer size a caller must read into.
    pub fn buffer_size(&self) -> (r: usize)
        ensures
            r == self.spec_mtu(),
    {
        self.mtu
    }

    /// The packet delivered by a read that filled the first `cnt_read` bytes
    /// of `buffer`: exactly those bytes, as a fresh packet.
    pub fn take_packet(&self, buffer: &[u8], cnt_read: usize) -> (p: Vec<u8>)
        requires
            cnt_read <= buffer@.len(),
        ensures
            p@ == buffer@.subrange(0, cnt_read as int),
    {
        let mut p: Vec<u8> = Vec::new();
        let mut i: usize = 0;
        while i < cnt_read
            invariant
                i <= cnt_read <= buffer@.len(),
                p@ == buffer@.subrange(0, i as int),
            decreases cnt_read - i,
        {
            p.push(buffer[i]);
            proof {
                assert(p@ =~= buffer@.subrange(0, i + 1 as int));
            }
            i = i + 1;
        }
        p
    }
}

} // verus!
