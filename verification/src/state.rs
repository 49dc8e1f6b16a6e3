use vstd::prelude::*;

use crate::error::{Error, Result};
use crate::text::{chars_to_string, str_to_chars};
use crate::vm::bytes_u32;

verus! {

/// Leading bytes of a save state: "LXST".
pub const STATE_MAGIC: [u8; 4] = [0x4c, 0x58, 0x53, 0x54];

/// Version of the save-state layout.
pub const STATE_VERSION: u16 = 2;

/// Magic, version, payload length and payload checksum.
pub const STATE_HEADER_SIZE: usize = 14;

/// Largest payload a save state may carry (64 MiB).
pub const MAX_STATE_SIZE: usize = 0x0400_0000;

/// `n` steps of the bitwise, reflected CRC-32 with polynomial 0xEDB88320.
pub open spec fn crc32_shift(c: u32, n: nat) -> u32
    decreases n,
{
    if n == 0 {
        c
    } else {
        let next = if c & 1 == 1 {
            (c >> 1u32) ^ 0xedb8_8320u32
        } else {
            c >> 1u32
        };
        crc32_shift(next, (n - 1) as nat)
    }
}

/// The CRC-32 register after `data`, starting from all ones.
pub open spec fn crc32_register(data: Seq<u8>) -> u32
    decreases data.len(),
{
    if data.len() == 0 {
        0xffff_ffffu32
    } else {
        crc32_shift(crc32_register(data.drop_last()) ^ (data.last() as u32), 8)
    }
}

/// The CRC-32 (IEEE) checksum of `data`: the final register, inverted.
pub open spec fn crc32(data: Seq<u8>) -> u32 {
    !crc32_register(data)
}

/// `crc32fast::hash`: the CRC-32 (IEEE) checksum of the bytes.
#[verifier::external_body]
fn checksum(data: &[u8]) -> (c: u32)
    ensures
        c == crc32(data@),
{
    crc32fast::hash(data)
}

/// A save state around `payload`: the magic, the version and the payload's
/// length and checksum, all little-endian, then the payload.
pub open spec fn framed(payload: Seq<u8>) -> Seq<u8> {
    seq![0x4cu8, 0x58u8, 0x53u8, 0x54u8, 2u8, 0u8] + bytes_u32(payload.len() as u32) + bytes_u32(crc32(payload))
        + payload
}

/// Little-endian 16 and 32-bit fields of a state.
pub open spec fn field16(s: Seq<u8>, at: int) -> u16 {
    crate::vm::le_u16(s[at], s[at + 1])
}

pub open spec fn field32(s: Seq<u8>, at: int) -> u32 {
    crate::vm::le_u32(s[at], s[at + 1], s[at + 2], s[at + 3])
}

/// The digits of `n` in decimal.
pub open spec fn decimal_chars(n: nat) -> Seq<char>
    decreases n,
{
    if n < 10 {
        seq![(n + 48) as char]
    } else {
        decimal_chars(n / 10).push((n % 10 + 48) as char)
    }
}

/// The payload of a save state, or why the state is refused: a short state
/// or a wrong magic, another version, a length past the limit or the end,
/// a checksum that does not match.
pub open spec fn state_contents(state: Seq<u8>) -> core::result::Result<Seq<u8>, Seq<char>> {
    if state.len() < STATE_HEADER_SIZE || state.take(4) != seq![0x4cu8, 0x58u8, 0x53u8, 0x54u8] {
        Err("invalid header"@)
    } else if field16(state, 4) != STATE_VERSION {
        Err("unsupported version "@ + decimal_chars(field16(state, 4) as nat))
    } else if field32(state, 6) > MAX_STATE_SIZE || state.len() < STATE_HEADER_SIZE + field32(state, 6) {
        Err("invalid payload length"@)
    } else if crc32(state.subrange(14, 14 + field32(state, 6))) != field32(state, 10) {
        Err("checksum mismatch"@)
    } else {
        Ok(state.subrange(14, 14 + field32(state, 6)))
    }
}

fn push_decimal(out: &mut Vec<char>, n: u16)
    ensures
        final(out)@ == old(out)@ + decimal_chars(n as nat),
    decreases n,
{
    if n >= 10 {
        push_decimal(out, n / 10);
    }
    let digit: u8 = (n % 10) as u8 + 48;
    out.push(digit as char);
}

fn refused(message: &str) -> (e: Error)
    ensures
        e matches Error::InvalidSaveState(m) && m@ == message@,
{
    Error::InvalidSaveState(message.to_owned())
}

/// Frames a serialised machine as a save state (see `framed`); a payload
/// over `MAX_STATE_SIZE` is refused.
pub fn frame_state(payload: &[u8]) -> (r: Result<Vec<u8>>)
    ensures
        payload@.len() > MAX_STATE_SIZE ==> (r matches Err(Error::InvalidSaveState(m)) && m@
            == "state exceeds size limit"@),
        payload@.len() <= MAX_STATE_SIZE ==> (r matches Ok(v) && v@ == framed(payload@)),
{
    if payload.len() > MAX_STATE_SIZE {
        return Err(refused("state exceeds size limit"));
    }
    let length = payload.len() as u32;
    let crc = checksum(payload);
    let mut state: Vec<u8> = Vec::with_capacity(STATE_HEADER_SIZE + payload.len());
    state.push(0x4c);
    state.push(0x58);
    state.push(0x53);
    state.push(0x54);
    state.push(2);
    state.push(0);
    state.push(length as u8);
    state.push((length >> 8u32) as u8);
    state.push((length >> 16u32) as u8);
    state.push((length >> 24u32) as u8);
    state.push(crc as u8);
    state.push((crc >> 8u32) as u8);
    state.push((crc >> 16u32) as u8);
    state.push((crc >> 24u32) as u8);
    let mut i: usize = 0;
    while i < payload.len()
        invariant
            i <= payload@.len(),
            state@.len() == 14 + i,
            state@.take(14) == seq![0x4cu8, 0x58u8, 0x53u8, 0x54u8, 2u8, 0u8] + bytes_u32(length) + bytes_u32(crc),
            state@.skip(14) == payload@.take(i as int),
        decreases payload@.len() - i,
    {
        state.push(payload[i]);
        i += 1;
        assert(state@.take(14) =~= state@.drop_last().take(14));
        assert(state@.skip(14) =~= payload@.take(i as int));
    }
    assert(state@ =~= state@.take(14) + state@.skip(14));
    assert(payload@.take(payload@.len() as int) =~= payload@);
    Ok(state)
}

/// The payload of a save state (see `state_contents`).
pub fn state_payload(state: &[u8]) -> (r: Result<Vec<u8>>)
    ensures
        match state_contents(state@) {
            Ok(p) => r matches Ok(v) && v@ == p,
            Err(m) => r matches Err(Error::InvalidSaveState(e)) && e@ == m,
        },
{
    if state.len() < STATE_HEADER_SIZE || state[0] != 0x4c || state[1] != 0x58 || state[2] != 0x53 || state[3]
        != 0x54 {
        assert(state.len() >= STATE_HEADER_SIZE ==> state@.take(4) != seq![0x4cu8, 0x58u8, 0x53u8, 0x54u8]) by {
            if state.len() >= STATE_HEADER_SIZE && state@.take(4) == seq![0x4cu8, 0x58u8, 0x53u8, 0x54u8] {
                assert(state@.take(4)[0] == state@[0]);
                assert(state@.take(4)[1] == state@[1]);
                assert(state@.take(4)[2] == state@[2]);
                assert(state@.take(4)[3] == state@[3]);
            }
        }
        return Err(refused("invalid header"));
    }
    assert(state@.take(4) =~= seq![0x4cu8, 0x58u8, 0x53u8, 0x54u8]);
    let version: u16 = (state[4] as u16) | ((state[5] as u16) << 8u16);
    if version != STATE_VERSION {
        let mut message = str_to_chars("unsupported version ");
        push_decimal(&mut message, version);
        return Err(Error::InvalidSaveState(chars_to_string(message.as_slice())));
    }
    let length: u32 = (state[6] as u32) | ((state[7] as u32) << 8u32) | ((state[8] as u32) << 16u32) | ((
    state[9] as u32) << 24u32);
    if length as usize > MAX_STATE_SIZE || state.len() < STATE_HEADER_SIZE + length as usize {
        return Err(refused("invalid payload length"));
    }
    let expected: u32 = (state[10] as u32) | ((state[11] as u32) << 8u32) | ((state[12] as u32) << 16u32) | ((
    state[13] as u32) << 24u32);
    let payload = crate::bytes::copy_range(state, STATE_HEADER_SIZE, STATE_HEADER_SIZE + length as usize);
    if checksum(payload.as_slice()) != expected {
        return Err(refused("checksum mismatch"));
    }
    Ok(payload)
}

/// A framed payload reads back as itself.
pub proof fn law_framed_state_reads_back(payload: Seq<u8>)
    requires
        payload.len() <= MAX_STATE_SIZE,
    ensures
        state_contents(framed(payload)) == Ok::<Seq<u8>, Seq<char>>(payload),
{
    let s = framed(payload);
    let n = payload.len() as u32;
    let c = crc32(payload);
    assert(s.take(4) =~= seq![0x4cu8, 0x58u8, 0x53u8, 0x54u8]);
    crate::vm::lemma_le_u32_of_bytes(n);
    crate::vm::lemma_le_u32_of_bytes(c);
    assert(s[4] == 2u8 && s[5] == 0u8);
    assert(((2u8 as u16) | ((0u8 as u16) << 8u16)) == 2u16) by (bit_vector);
    assert(field16(s, 4) == 2);
    assert(s[6] == n as u8 && s[7] == (n >> 8u32) as u8 && s[8] == (n >> 16u32) as u8 && s[9] == (n >> 24u32) as u8);
    assert(field32(s, 6) == n);
    assert(s[10] == c as u8 && s[11] == (c >> 8u32) as u8 && s[12] == (c >> 16u32) as u8 && s[13] == (c >> 24u32) as u8);
    assert(field32(s, 10) == c);
    assert(s.len() == 14 + n);
    assert(s.subrange(14, 14 + n) =~= payload);
}

} // verus!
