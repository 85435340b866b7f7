//! What holds of every embedding and of reading it back.

use crate::bits::{lemma_byte_of_bits, lemma_value_of_low_bits, low_bits, value_of_bits};
use crate::codec::{
    bit_stream, chunk_len, embedded, header_value, lsb_run, payload_bytes,
    recovered_text, required_bits,
};
use crate::layout::{
    available_bits, channel_pos, is_alpha, lemma_channel_in_buffer,
    lemma_channel_pos, HEADER_BITS, MIN_HEADER_BYTES,
};
use vstd::arithmetic::power2::lemma2_to64;
use vstd::prelude::*;
use vstd::utf8::*;

verus! {

/// Every bit of the stream is `0` or `1`.
proof fn lemma_stream_bits(message: Seq<u8>)
    ensures
        forall|k: int| 0 <= k < bit_stream(message).len() ==> #[trigger] bit_stream(message)[k] <= 1,
{
}

/// Channel `k` of an embedded buffer carries bit `k` of the stream in its lowest bit.
proof fn lemma_embedded_lsb(buf: Seq<u8>, message: Seq<u8>, k: int)
    requires
        0 <= k < bit_stream(message).len(),
        bit_stream(message).len() <= available_bits(buf.len() as int),
    ensures
        0 <= channel_pos(k) < buf.len(),
        embedded(buf, bit_stream(message))[channel_pos(k)] % 2 == bit_stream(message)[k],
{
    lemma_stream_bits(message);
    lemma_channel_in_buffer(k, buf.len() as int);
    lemma_channel_pos(k);
}

/// A run of channels of an embedded buffer reads back that stretch of the stream.
proof fn lemma_embedded_run(buf: Seq<u8>, message: Seq<u8>, start: int, n: nat)
    requires
        0 <= start,
        start + n <= bit_stream(message).len(),
        bit_stream(message).len() <= available_bits(buf.len() as int),
    ensures
        lsb_run(embedded(buf, bit_stream(message)), start, n) == bit_stream(message).subrange(
            start,
            start + n,
        ),
{
    let e = embedded(buf, bit_stream(message));
    assert forall|i: int| 0 <= i < n implies #[trigger] lsb_run(e, start, n)[i] == bit_stream(
        message,
    )[start + i] by {
        lemma_embedded_lsb(buf, message, start + i);
    }
    assert(lsb_run(e, start, n) =~= bit_stream(message).subrange(start, start + n));
}

/// A buffer whose capacity covers the header is long enough to be read.
proof fn lemma_header_fits(len: int)
    requires
        0 <= len,
        HEADER_BITS <= available_bits(len),
    ensures
        len >= MIN_HEADER_BYTES,
{
}

/// The header of an embedded buffer announces the payload length in bits.
proof fn lemma_embedded_header(buf: Seq<u8>, message: Seq<u8>)
    requires
        required_bits(message) <= available_bits(buf.len() as int),
        8 * message.len() <= u32::MAX,
    ensures
        header_value(embedded(buf, bit_stream(message))) == 8 * message.len(),
        buf.len() >= MIN_HEADER_BYTES,
{
    let v = 8 * message.len() as int;
    let s = bit_stream(message);
    let hdr = low_bits(v, HEADER_BITS as nat);
    let run = lsb_run(embedded(buf, s), 0, HEADER_BITS as nat);
    lemma_header_fits(buf.len() as int);
    assert(run == s.subrange(0, HEADER_BITS as int)) by {
        lemma_embedded_run(buf, message, 0, HEADER_BITS as nat);
    }
    assert(s.subrange(0, HEADER_BITS as int) == hdr) by {
        assert(s.subrange(0, HEADER_BITS as int) =~= hdr);
    }
    assert(value_of_bits(hdr) == v) by {
        lemma_value_of_low_bits(v, HEADER_BITS as nat);
        lemma2_to64();
    }
}

/// Extracting from a buffer that was embedded with `text` gives `text` back,
/// whenever the header and the encoded text fit in the buffer.
pub proof fn lemma_round_trip(buf: Seq<u8>, text: Seq<char>)
    requires
        required_bits(encode_utf8(text)) <= available_bits(buf.len() as int),
        8 * encode_utf8(text).len() <= u32::MAX,
    ensures
        recovered_text(embedded(buf, bit_stream(encode_utf8(text)))) == Some(text),
{
    broadcast use encode_utf8_valid_utf8, encode_utf8_decode_utf8;

    let m = encode_utf8(text);
    let e = embedded(buf, bit_stream(m));
    let h = 8 * m.len() as int;
    lemma_embedded_header(buf, m);
    if m.len() == 0 {
        assert(m =~= Seq::<u8>::empty());
        assert(decode_utf8(m) =~= Seq::<char>::empty());
    } else {
        assert forall|j: int| 0 <= j < m.len() implies #[trigger] payload_bytes(e, h)[j] == m[j] by {
            assert(chunk_len(h, j) == 8);
            lemma_embedded_run(buf, m, HEADER_BITS + 8 * j, 8);
            assert forall|i: int| 0 <= i < 8 implies bit_stream(m)[HEADER_BITS + 8 * j + i]
                == #[trigger] low_bits(m[j] as int, 8)[i] by {
                assert((8 * j + i) / 8 == j && (8 * j + i) % 8 == i);
            }
            assert(bit_stream(m).subrange(HEADER_BITS + 8 * j, HEADER_BITS + 8 * j + 8) =~= low_bits(
                m[j] as int,
                8,
            ));
            lemma_byte_of_bits(m[j]);
        }
        assert(payload_bytes(e, h) =~= m);
    }
}

/// Embedding leaves every alpha byte as it was.
pub proof fn lemma_alpha_untouched(buf: Seq<u8>, text: Seq<char>)
    ensures
        forall|p: int|
            0 <= p < buf.len() && is_alpha(p) ==> #[trigger] embedded(
                buf,
                bit_stream(encode_utf8(text)),
            )[p] == buf[p],
{
}

/// Embedding changes at most the lowest bit of a byte: bits 1 to 7 of every
/// byte stay as they were.
pub proof fn lemma_high_bits_untouched(buf: Seq<u8>, text: Seq<char>)
    ensures
        embedded(buf, bit_stream(encode_utf8(text))).len() == buf.len(),
        forall|p: int|
            0 <= p < buf.len() ==> #[trigger] embedded(buf, bit_stream(encode_utf8(text)))[p] / 2
                == buf[p] / 2,
{
    lemma_stream_bits(encode_utf8(text));
}

/// Embedding fits exactly when the required bits are at most the available
/// ones: a message that takes every available bit fits, and one more bit does not.
pub proof fn lemma_capacity_boundary(len: nat, message: Seq<u8>)
    ensures
        required_bits(message) == available_bits(len as int) ==> !(required_bits(message)
            > available_bits(len as int)),
        required_bits(message) == available_bits(len as int) + 1 ==> required_bits(message)
            > available_bits(len as int),
{
}

/// Embedding the empty message writes a header of zero, and the buffer then
/// reads back as the empty text.
pub proof fn lemma_empty_message(buf: Seq<u8>)
    requires
        HEADER_BITS <= available_bits(buf.len() as int),
    ensures
        header_value(embedded(buf, bit_stream(encode_utf8(Seq::<char>::empty())))) == 0,
        recovered_text(embedded(buf, bit_stream(encode_utf8(Seq::<char>::empty())))) == Some(
            Seq::<char>::empty(),
        ),
{
    let text = Seq::<char>::empty();
    assert(encode_utf8(text) =~= Seq::<u8>::empty());
    lemma_embedded_header(buf, encode_utf8(text));
    lemma_round_trip(buf, text);
}

} // verus!
