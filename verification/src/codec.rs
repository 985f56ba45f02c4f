//! Wire-level encoding of a range request packet.
//!
//! The packet asks for bytes `[offset, offset + length)` of a file; the wire
//! protocol addresses 4-byte words, so both bounds must be 4-byte aligned.

use vstd::prelude::*;

verus! {

/// The two big-endian bytes of a 16-bit word.
pub open spec fn be16(v: u16) -> Seq<u8> {
    seq![(v / 256) as u8, (v % 256) as u8]
}

/// The four big-endian bytes of a 32-bit word.
pub open spec fn be32(v: u32) -> Seq<u8> {
    seq![
        (v / 0x1000000) as u8,
        ((v / 0x10000) % 256) as u8,
        ((v / 256) % 256) as u8,
        (v % 256) as u8,
    ]
}

/// The full request packet: channel id, a fixed header, the raw file
/// identifier, then the first and one-past-last requested 4-byte word.
pub open spec fn spec_range_request(
    channel_id: u16,
    file_id: Seq<u8>,
    offset: int,
    length: int,
) -> Seq<u8> {
    be16(channel_id) + seq![0u8, 1u8] + be16(0u16) + be32(0u32) + be32(0x00009C40u32)
        + be32(0x00020000u32) + file_id + be32(((offset / 4) as u32)) + be32(
        (((offset + length) / 4) as u32),
    )
}

fn push_be16(out: &mut Vec<u8>, v: u16)
    ensures
        final(out)@ == old(out)@ + be16(v),
{
    out.push((v / 256) as u8);
    out.push((v % 256) as u8);
    proof {
        assert(out@ =~= old(out)@ + be16(v));
    }
}

fn push_be32(out: &mut Vec<u8>, v: u32)
    ensures
        final(out)@ == old(out)@ + be32(v),
{
    out.push((v / 0x1000000) as u8);
    out.push(((v / 0x10000) % 256) as u8);
    out.push(((v / 256) % 256) as u8);
    out.push((v % 256) as u8);
    proof {
        assert(out@ =~= old(out)@ + be32(v));
    }
}

/// Encode the range request for bytes `[offset, offset + length)` of the file
/// with raw identifier `file_id`, to be sent on control-channel kind `0x8`.
/// Misaligned bounds are a caller bug and are ruled out up front.
pub fn encode_range_request(
    channel_id: u16,
    file_id: &Vec<u8>,
    offset: usize,
    length: usize,
) -> (packet: Vec<u8>)
    requires
        offset % 4 == 0,
        length % 4 == 0,
        offset + length <= usize::MAX,
        (offset + length) / 4 <= u32::MAX,
    ensures
        packet@ == spec_range_request(channel_id, file_id@, offset as int, length as int),
        packet@.len() == 26 + file_id@.len(),
{
    let start_word = (offset / 4) as u32;
    let end_word = ((offset + length) / 4) as u32;

    let mut packet: Vec<u8> = Vec::new();
    push_be16(&mut packet, channel_id);
    packet.push(0u8);
    packet.push(1u8);
    push_be16(&mut packet, 0u16);
    push_be32(&mut packet, 0u32);
    push_be32(&mut packet, 0x00009C40u32);
    push_be32(&mut packet, 0x00020000u32);

    let ghost header = packet@;
    let n = file_id.len();
    let mut i: usize = 0;
    while i < n
        invariant
            i <= n,
            n == file_id@.len(),
            packet@ == header + file_id@.subrange(0, i as int),
        decreases n - i,
    {
        packet.push(file_id[i]);
        proof {
            assert(packet@ =~= header + file_id@.subrange(0, i + 1 as int));
        }
        i += 1;
    }
    proof {
        assert(file_id@.subrange(0, n as int) =~= file_id@);
    }

    push_be32(&mut packet, start_word);
    push_be32(&mut packet, end_word);
    proof {
        assert(packet@ =~= spec_range_request(
            channel_id,
            file_id@,
            offset as int,
            length as int,
        ));
    }
    packet
}

} // verus!
