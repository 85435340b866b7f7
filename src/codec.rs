//! The wire format, and the two operations that write it into a pixel buffer
//! and read it back.
//!
//! The hidden bit stream is a 32-bit header holding the payload length in bits,
//! least significant bit first, followed by the message bytes, each least
//! significant bit first. Bit `k` of the stream sits in bit 0 of colour channel
//! `k` of the buffer.

use crate::bits::{bit_of, get_bit, set_bit, value_of_bits};
use crate::layout::{
    available_bits, capacity_bits, channel_index, channel_pos, is_alpha, lemma_channel_in_buffer,
    lemma_channel_index, lemma_channel_pos, ChannelCursor, HEADER_BITS, MIN_HEADER_BYTES,
};
use vstd::arithmetic::power2::{
    lemma2_to64, lemma_pow2_strictly_increases, lemma_pow2_unfold, pow2,
};
use vstd::prelude::*;
use vstd::string::*;
use vstd::utf8::*;

verus! {

/// Why an embedding or an extraction failed.
#[derive(Debug, Clone, PartialEq, Eq)]
pub enum StegoError {
    /// The header and the message need more bits than the buffer's colour channels hold.
    CapacityExceeded { required_bits: u64, available_bits: u64 },
    /// The buffer cannot hold even the length header.
    BufferTooSmallForHeader { len: usize },
    /// The header announces more bits than the buffer can hold: it is corrupt,
    /// or no message was ever embedded.
    ImpliedLengthExceedsCapacity { payload_bits: u32, available_bits: u64 },
    /// The colour channels ran out although the capacity check passed.
    UnexpectedExhaustion,
    /// The recovered bytes are not UTF-8; `detail` is the decoder's account.
    Utf8DecodeError { detail: String },
}

/// Bits that the header and the payload of `message` take together.
pub open spec fn required_bits(message: Seq<u8>) -> int {
    HEADER_BITS + 8 * message.len()
}

/// The whole stream written for `message`: a header of `HEADER_BITS` bits
/// holding the payload length in bits, then each byte of `message`; every
/// number least significant bit first.
pub open spec fn bit_stream(message: Seq<u8>) -> Seq<u8> {
    Seq::new(
        (HEADER_BITS + 8 * message.len()) as nat,
        |k: int|
            if k < HEADER_BITS {
                bit_of(8 * message.len() as int, k as nat) as u8
            } else {
                bit_of(message[(k - HEADER_BITS) / 8] as int, ((k - HEADER_BITS) % 8) as nat) as u8
            },
    )
}

/// `b` with its least significant bit replaced by `bit`.
pub open spec fn with_lsb(b: u8, bit: u8) -> u8 {
    ((b / 2) * 2 + bit) as u8
}

/// `buf` after colour channel `k` has taken `bits[k]` in its lowest bit, for
/// every `k < bits.len()`; every other byte is as it was.
pub open spec fn embedded(buf: Seq<u8>, bits: Seq<u8>) -> Seq<u8> {
    Seq::new(
        buf.len(),
        |p: int|
            if !is_alpha(p) && channel_index(p) < bits.len() {
                with_lsb(buf[p], bits[channel_index(p)])
            } else {
                buf[p]
            },
    )
}

/// Writes `message` into the lowest bits of the colour channels of `image_data`.
///
/// Fails with `CapacityExceeded`, and leaves the buffer as it was, exactly when
/// the header and the message need more bits than the buffer holds.
pub fn embed(image_data: &mut [u8], message: &str) -> (r: Result<(), StegoError>)
    requires
        8 * message.spec_bytes().len() <= u32::MAX,
    ensures
        r is Err <==> required_bits(message.spec_bytes()) > available_bits(
            old(image_data)@.len() as int,
        ),
        r is Err ==> final(image_data)@ == old(image_data)@ && r == (Err::<(), StegoError>(
            StegoError::CapacityExceeded {
                required_bits: required_bits(message.spec_bytes()) as u64,
                available_bits: available_bits(old(image_data)@.len() as int) as u64,
            },
        )),
        r is Ok ==> final(image_data)@ == embedded(
            old(image_data)@,
            bit_stream(message.spec_bytes()),
        ),
{
    let message_bytes = message.as_bytes();
    let message_len_bytes = message_bytes.len();
    let message_len_bits = message_len_bytes * 8;
    let required_capacity_bits = HEADER_BITS as u64 + message_len_bits as u64;
    let available_capacity_bits = capacity_bits(image_data.len());
    if required_capacity_bits > available_capacity_bits as u64 {
        return Err(
            StegoError::CapacityExceeded {
                required_bits: required_capacity_bits,
                available_bits: available_capacity_bits as u64,
            },
        );
    }
    let ghost m = message_bytes@;
    let ghost stream = bit_stream(m);
    let ghost buf0 = image_data@;
    // The header: the payload length in bits, least significant bit first.
    let length_as_u32 = message_len_bits as u32;
    let mut bits_to_embed: Vec<u8> = Vec::new();
    let mut i: u32 = 0;
    while i < 32
        invariant
            i <= 32,
            length_as_u32 as int == 8 * m.len(),
            stream == bit_stream(m),
            bits_to_embed@ == stream.take(i as int),
        decreases 32 - i,
    {
        proof {
            crate::bits::lemma_u32_bit(length_as_u32, i);
        }
        bits_to_embed.push(((length_as_u32 >> i) & 1) as u8);
        assert(bits_to_embed@ =~= stream.take(i + 1));
        i = i + 1;
    }
    // The payload: each byte, least significant bit first.
    let mut j: usize = 0;
    while j < message_len_bytes
        invariant
            j <= message_len_bytes,
            message_len_bytes == m.len(),
            message_bytes@ == m,
            stream == bit_stream(m),
            bits_to_embed@ == stream.take(HEADER_BITS + 8 * j),
        decreases message_len_bytes - j,
    {
        let byte = message_bytes[j];
        let mut n: u8 = 0;
        while n < 8
            invariant
                n <= 8,
                j < m.len(),
                byte == m[j as int],
                stream == bit_stream(m),
                bits_to_embed@ == stream.take(HEADER_BITS + 8 * j + n),
            decreases 8 - n,
        {
            let bit = get_bit(byte, n);
            let ghost k = 8 * j + n;
            assert(k / 8 == j && k % 8 == n);
            bits_to_embed.push(bit);
            assert(bits_to_embed@ =~= stream.take(HEADER_BITS + 8 * j + n + 1));
            n = n + 1;
        }
        j = j + 1;
    }
    assert(bits_to_embed@ =~= stream);
    // Each bit goes into the lowest bit of the next colour channel.
    let mut cursor = ChannelCursor::new(image_data.len());
    let mut t: usize = 0;
    while t < bits_to_embed.len()
        invariant
            cursor.wf(),
            cursor.taken() == t,
            cursor.len() == buf0.len(),
            image_data@.len() == buf0.len(),
            t <= stream.len(),
            bits_to_embed@ == stream,
            stream.len() <= available_bits(buf0.len() as int),
            forall|k: int| 0 <= k < stream.len() ==> #[trigger] stream[k] <= 1,
            image_data@ == embedded(buf0, stream.take(t as int)),
        decreases stream.len() - t,
    {
        let bit = bits_to_embed[t];
        proof {
            lemma_channel_in_buffer(t as int, buf0.len() as int);
        }
        match cursor.next() {
            Some(p) => {
                let ghost before = image_data@;
                let b = image_data[p];
                let nb = set_bit(b, 0, bit);
                image_data[p] = nb;
                proof {
                    lemma2_to64();
                    lemma_channel_pos(t as int);
                    crate::bits::lemma_bit_zero(b as int);
                    assert(nb == with_lsb(b, bit));
                    assert forall|q: int| 0 <= q < buf0.len() implies image_data@[q] == embedded(
                        buf0,
                        stream.take(t + 1),
                    )[q] by {
                        if !is_alpha(q) {
                            lemma_channel_index(q);
                        }
                    }
                    assert(image_data@ =~= embedded(buf0, stream.take(t + 1)));
                }
            },
            None => {
                return Err(StegoError::UnexpectedExhaustion);
            },
        }
        t = t + 1;
    }
    assert(stream.take(stream.len() as int) =~= stream);
    Ok(())
}

/// The lowest bits of `n` consecutive colour channels, from channel `start` on.
pub open spec fn lsb_run(buf: Seq<u8>, start: int, n: nat) -> Seq<u8> {
    Seq::new(n, |i: int| buf[channel_pos(start + i)] % 2)
}

/// The payload length, in bits, that the header of `buf` announces.
pub open spec fn header_value(buf: Seq<u8>) -> int {
    value_of_bits(lsb_run(buf, 0, HEADER_BITS as nat))
}

/// How many of `nbits` payload bits make up byte `j`: eight, but for a short last one.
pub open spec fn chunk_len(nbits: int, j: int) -> nat {
    if nbits - 8 * j >= 8 {
        8
    } else {
        (nbits - 8 * j) as nat
    }
}

/// The payload bytes of `buf` when it holds `nbits` payload bits: each group of
/// eight bits, least significant first. A short last group gives a byte whose
/// missing high bits are zero.
pub open spec fn payload_bytes(buf: Seq<u8>, nbits: int) -> Seq<u8> {
    Seq::new(
        ((nbits + 7) / 8) as nat,
        |j: int| value_of_bits(lsb_run(buf, HEADER_BITS + 8 * j, chunk_len(nbits, j))) as u8,
    )
}

/// The text hidden in `buf`, or `None` where extraction fails.
pub open spec fn recovered_text(buf: Seq<u8>) -> Option<Seq<char>> {
    let h = header_value(buf);
    if buf.len() < MIN_HEADER_BYTES {
        None
    } else if h == 0 {
        Some(Seq::empty())
    } else if HEADER_BITS + h > available_bits(buf.len() as int) {
        None
    } else if valid_utf8(payload_bytes(buf, h)) {
        Some(decode_utf8(payload_bytes(buf, h)))
    } else {
        None
    }
}

/// Relies on `String::from_utf8`: it succeeds exactly on valid UTF-8, and then
/// holds the characters that the bytes encode; its error is rendered as text.
#[verifier::external_body]
fn decode_text(bytes: Vec<u8>) -> (r: Result<String, String>)
    ensures
        r is Ok <==> valid_utf8(bytes@),
        r is Ok ==> r->Ok_0@ == decode_utf8(bytes@),
{
    match String::from_utf8(bytes) {
        Ok(text) => Ok(text),
        Err(e) => Err(format!("{}", e)),
    }
}

/// Reads back the message that `embed` wrote into `image_data`.
pub fn extract(image_data: &[u8]) -> (r: Result<String, StegoError>)
    ensures
        r is Ok <==> recovered_text(image_data@) is Some,
        r is Ok ==> r->Ok_0@ == recovered_text(image_data@)->0,
        image_data@.len() < MIN_HEADER_BYTES ==> r == (Err::<String, StegoError>(
            StegoError::BufferTooSmallForHeader { len: image_data@.len() as usize },
        )),
        image_data@.len() >= MIN_HEADER_BYTES && header_value(image_data@) != 0 && HEADER_BITS
            + header_value(image_data@) > available_bits(image_data@.len() as int) ==> r == (Err::<
            String,
            StegoError,
        >(
            StegoError::ImpliedLengthExceedsCapacity {
                payload_bits: header_value(image_data@) as u32,
                available_bits: available_bits(image_data@.len() as int) as u64,
            },
        )),
        image_data@.len() >= MIN_HEADER_BYTES && header_value(image_data@) != 0 && HEADER_BITS
            + header_value(image_data@) <= available_bits(image_data@.len() as int) && !valid_utf8(
            payload_bytes(image_data@, header_value(image_data@)),
        ) ==> r matches Err(StegoError::Utf8DecodeError { .. }),
{
    let ghost buf = image_data@;
    let len = image_data.len();
    if len < MIN_HEADER_BYTES {
        return Err(StegoError::BufferTooSmallForHeader { len });
    }
    // The header: 32 bits, least significant first.
    let mut cursor = ChannelCursor::new(len);
    let mut value: u64 = 0;
    let mut weight: u64 = 1;
    let mut i: u32 = 0;
    proof {
        lemma2_to64();
        assert(lsb_run(buf, 0, 0) =~= Seq::<u8>::empty());
    }
    while i < 32
        invariant
            i <= 32,
            len == buf.len(),
            len >= MIN_HEADER_BYTES,
            image_data@ == buf,
            cursor.wf(),
            cursor.taken() == i,
            cursor.len() == len,
            weight == pow2(i as nat),
            value < weight,
            value == value_of_bits(lsb_run(buf, 0, i as nat)),
        decreases 32 - i,
    {
        proof {
            lemma_channel_in_buffer(i as int, len as int);
            lemma2_to64();
            if i < 31 {
                lemma_pow2_strictly_increases(i as nat, 31);
            }
            lemma_pow2_unfold((i + 1) as nat);
        }
        match cursor.next() {
            Some(p) => {
                let lsb = get_bit(image_data[p], 0);
                proof {
                    crate::bits::lemma_bit_zero(buf[p as int] as int);
                    let next = lsb_run(buf, 0, (i + 1) as nat);
                    assert(next.drop_last() =~= lsb_run(buf, 0, i as nat));
                    assert(next.last() == lsb);
                    if lsb == 0 {
                        assert(value_of_bits(next) == value);
                    } else {
                        assert(lsb == 1);
                        assert(value_of_bits(next) == value + weight);
                    }
                }
                if lsb == 1 {
                    value = value + weight;
                }
                weight = weight * 2;
            },
            None => {
                return Err(StegoError::UnexpectedExhaustion);
            },
        }
        i = i + 1;
    }
    let ghost h = header_value(buf);
    let message_len_bits = value as u32;
    if message_len_bits == 0 {
        return Ok(String::new());
    }
    let total_bits_implied = HEADER_BITS as u64 + message_len_bits as u64;
    let available_capacity_bits = capacity_bits(len);
    if total_bits_implied > available_capacity_bits as u64 {
        return Err(
            StegoError::ImpliedLengthExceedsCapacity {
                payload_bits: message_len_bits,
                available_bits: available_capacity_bits as u64,
            },
        );
    }
    // The payload bits, from the channel right after the header.
    let mut extracted_bits: Vec<u8> = Vec::new();
    let mut t: u32 = 0;
    while t < message_len_bits
        invariant
            t <= message_len_bits,
            message_len_bits == h,
            HEADER_BITS + h <= available_bits(len as int),
            len == buf.len(),
            image_data@ == buf,
            cursor.wf(),
            cursor.taken() == HEADER_BITS + t,
            cursor.len() == len,
            extracted_bits@ == lsb_run(buf, HEADER_BITS as int, t as nat),
        decreases message_len_bits - t,
    {
        proof {
            lemma_channel_in_buffer(HEADER_BITS + t, len as int);
        }
        match cursor.next() {
            Some(p) => {
                let lsb = get_bit(image_data[p], 0);
                proof {
                    crate::bits::lemma_bit_zero(buf[p as int] as int);
                }
                extracted_bits.push(lsb);
                assert(extracted_bits@ =~= lsb_run(buf, HEADER_BITS as int, (t + 1) as nat));
            },
            None => {
                return Err(StegoError::UnexpectedExhaustion);
            },
        }
        t = t + 1;
    }
    // Bytes from groups of eight bits, least significant first.
    let nbits = extracted_bits.len();
    let nbytes = (nbits + 7) / 8;
    let ghost expected = payload_bytes(buf, h);
    let mut message_bytes: Vec<u8> = Vec::new();
    let mut j: usize = 0;
    while j < nbytes
        invariant
            j <= nbytes,
            nbits == h,
            nbytes == (h + 7) / 8,
            HEADER_BITS + h <= available_bits(len as int),
            len == buf.len(),
            extracted_bits@ == lsb_run(buf, HEADER_BITS as int, h as nat),
            expected == payload_bytes(buf, h),
            message_bytes@ == expected.take(j as int),
        decreases nbytes - j,
    {
        let start = 8 * j;
        let chunk = if nbits - start >= 8 {
            8
        } else {
            nbits - start
        };
        let ghost run = lsb_run(buf, HEADER_BITS + 8 * j, chunk as nat);
        let mut byte: u32 = 0;
        let mut w: u32 = 1;
        let mut i: usize = 0;
        proof {
            lemma2_to64();
            assert(lsb_run(buf, HEADER_BITS + 8 * j, 0) =~= Seq::<u8>::empty());
        }
        while i < chunk
            invariant
                i <= chunk,
                chunk <= 8,
                start + chunk <= nbits,
                start == 8 * j,
                nbits == h,
                chunk == chunk_len(h, j as int),
                extracted_bits@ == lsb_run(buf, HEADER_BITS as int, h as nat),
                w == pow2(i as nat),
                byte < w,
                byte == value_of_bits(lsb_run(buf, HEADER_BITS + 8 * j, i as nat)),
            decreases chunk - i,
        {
            let bit = extracted_bits[start + i];
            proof {
                lemma2_to64();
                if i < 7 {
                    lemma_pow2_strictly_increases(i as nat, 7);
                }
                lemma_pow2_unfold((i + 1) as nat);
                let next = lsb_run(buf, HEADER_BITS + 8 * j, (i + 1) as nat);
                assert(next.drop_last() =~= lsb_run(buf, HEADER_BITS + 8 * j, i as nat));
                assert(HEADER_BITS + (start + i) == HEADER_BITS + 8 * j + i);
                assert(next.last() == bit);
                if bit == 0 {
                    assert(value_of_bits(next) == byte);
                } else {
                    assert(bit == 1);
                    assert(value_of_bits(next) == byte + w);
                }
            }
            if bit == 1 {
                byte = byte + w;
            }
            w = w * 2;
            i = i + 1;
        }
        proof {
            lemma2_to64();
            if chunk < 8 {
                lemma_pow2_strictly_increases(chunk as nat, 8);
            }
        }
        message_bytes.push(byte as u8);
        assert(message_bytes@ =~= expected.take(j + 1));
        j = j + 1;
    }
    assert(message_bytes@ =~= expected);
    match decode_text(message_bytes) {
        Ok(text) => Ok(text),
        Err(detail) => Err(StegoError::Utf8DecodeError { detail }),
    }
}

} // verus!
