use lsb_stego::{
    capacity_bits, embed, extract, get_bit, set_bit, ChannelCursor, StegoError, HEADER_BITS,
    MIN_HEADER_BYTES,
};

/// Writes `bits` into the lowest bits of the colour channels, in order.
fn write_lsbs(buf: &mut [u8], bits: &[u8]) {
    let mut k = 0;
    for p in 0..buf.len() {
        if (p + 1) % 4 == 0 {
            continue;
        }
        if k == bits.len() {
            break;
        }
        buf[p] = (buf[p] & !1) | bits[k];
        k += 1;
    }
    assert_eq!(k, bits.len());
}

fn header(n: u32) -> Vec<u8> {
    (0..32).map(|i| ((n >> i) & 1) as u8).collect()
}

fn patterned(len: usize) -> Vec<u8> {
    (0..len).map(|i| (i * 37 + 11) as u8).collect()
}

#[test]
fn capacity_counts_three_bits_per_whole_pixel() {
    assert_eq!(capacity_bits(0), 0);
    assert_eq!(capacity_bits(16), 12);
    assert_eq!(capacity_bits(200), 150);
    assert_eq!(capacity_bits(203), 150);
    assert_eq!(HEADER_BITS, 32);
    assert_eq!(MIN_HEADER_BYTES, 44);
}

#[test]
fn bit_helpers() {
    assert_eq!(get_bit(0b1010_0101, 0), 1);
    assert_eq!(get_bit(0b1010_0101, 1), 0);
    assert_eq!(get_bit(0b1010_0101, 7), 1);
    assert_eq!(set_bit(0b1010_0101, 0, 0), 0b1010_0100);
    assert_eq!(set_bit(0b1010_0101, 1, 1), 0b1010_0111);
    assert_eq!(set_bit(0b1010_0101, 7, 0), 0b0010_0101);
    assert_eq!(set_bit(0xFF, 3, 1), 0xFF);
}

#[test]
fn cursor_skips_alpha_bytes() {
    let mut c = ChannelCursor::new(10);
    let mut seen = Vec::new();
    while let Some(p) = c.next() {
        seen.push(p);
    }
    assert_eq!(seen, vec![0, 1, 2, 4, 5, 6, 8, 9]);
    assert_eq!(c.next(), None);
}

#[test]
fn embed_rejects_message_too_large_for_small_buffer() {
    let mut buf = patterned(16);
    let before = buf.clone();
    assert_eq!(
        embed(&mut buf, "Hi"),
        Err(StegoError::CapacityExceeded { required_bits: 48, available_bits: 12 })
    );
    assert_eq!(buf, before);
}

#[test]
fn embed_then_extract_hi() {
    let mut buf = vec![0u8; 200];
    assert_eq!(embed(&mut buf, "Hi"), Ok(()));
    assert_eq!(extract(&buf), Ok("Hi".to_string()));
}

#[test]
fn embed_empty_message_writes_zero_header() {
    let mut buf = vec![0xFFu8; 200];
    assert_eq!(embed(&mut buf, ""), Ok(()));
    let channels: Vec<usize> = (0..200).filter(|p| (p + 1) % 4 != 0).take(32).collect();
    for p in channels {
        assert_eq!(buf[p] & 1, 0);
    }
    assert_eq!(buf[42], 0xFF);
    assert_eq!(extract(&buf), Ok(String::new()));
}

#[test]
fn extract_all_zero_buffer_is_empty() {
    let buf = vec![0u8; 200];
    assert_eq!(extract(&buf), Ok(String::new()));
}

#[test]
fn extract_rejects_buffer_below_header_size() {
    let buf = vec![0u8; 40];
    assert_eq!(extract(&buf), Err(StegoError::BufferTooSmallForHeader { len: 40 }));
    let buf = vec![0u8; 43];
    assert_eq!(extract(&buf), Err(StegoError::BufferTooSmallForHeader { len: 43 }));
    let buf = vec![0u8; 44];
    assert_eq!(extract(&buf), Ok(String::new()));
}

#[test]
fn extract_rejects_corrupt_header() {
    let buf = vec![0xFFu8; 200];
    assert_eq!(
        extract(&buf),
        Err(StegoError::ImpliedLengthExceedsCapacity {
            payload_bits: u32::MAX,
            available_bits: 150
        })
    );
    let mut buf = vec![0u8; 200];
    write_lsbs(&mut buf, &header(119));
    assert_eq!(
        extract(&buf),
        Err(StegoError::ImpliedLengthExceedsCapacity { payload_bits: 119, available_bits: 150 })
    );
}

#[test]
fn round_trip_ascii_and_multibyte() {
    for text in ["a", "Hello, world!", "héllo wörld", "日本語", "🦀 crab"] {
        let mut buf = patterned(400);
        assert_eq!(embed(&mut buf, text), Ok(()));
        assert_eq!(extract(&buf), Ok(text.to_string()));
    }
}

#[test]
fn embed_keeps_alpha_and_high_bits() {
    let before = patterned(400);
    let mut buf = before.clone();
    assert_eq!(embed(&mut buf, "steganography"), Ok(()));
    assert_ne!(buf, before);
    for p in 0..buf.len() {
        if (p + 1) % 4 == 0 {
            assert_eq!(buf[p], before[p]);
        } else {
            assert_eq!(buf[p] >> 1, before[p] >> 1);
        }
    }
}

#[test]
fn embed_writes_header_then_payload_lsb_first() {
    let mut buf = vec![0u8; 200];
    assert_eq!(embed(&mut buf, "A"), Ok(()));
    let lsbs: Vec<u8> = (0..200).filter(|p| (p + 1) % 4 != 0).map(|p| buf[p] & 1).collect();
    assert_eq!(&lsbs[..32], &header(8)[..]);
    assert_eq!(&lsbs[32..40], &[1, 0, 0, 0, 0, 0, 1, 0]);
    assert!(lsbs[40..].iter().all(|b| *b == 0));
}

#[test]
fn capacity_boundary_exact_fit() {
    // "Hi" needs 48 bits: 16 pixels hold exactly 48.
    let mut buf = patterned(64);
    assert_eq!(capacity_bits(64), 48);
    assert_eq!(embed(&mut buf, "Hi"), Ok(()));
    assert_eq!(extract(&buf), Ok("Hi".to_string()));
    // 17 bytes need 168 bits: 56 pixels hold exactly 168.
    let mut buf = patterned(224);
    let text = "abcdefghijklmnopq";
    assert_eq!(embed(&mut buf, text), Ok(()));
    assert_eq!(extract(&buf), Ok(text.to_string()));
}

#[test]
fn capacity_boundary_one_bit_over() {
    // "x" needs 40 bits: 13 pixels hold 39.
    let mut short = patterned(52);
    assert_eq!(capacity_bits(52), 39);
    let before = short.clone();
    assert_eq!(
        embed(&mut short, "x"),
        Err(StegoError::CapacityExceeded { required_bits: 40, available_bits: 39 })
    );
    assert_eq!(short, before);
}

#[test]
fn extract_rejects_invalid_utf8() {
    let mut buf = vec![0u8; 200];
    let mut bits = header(8);
    bits.extend_from_slice(&[1, 1, 1, 1, 1, 1, 1, 1]);
    write_lsbs(&mut buf, &bits);
    match extract(&buf) {
        Err(StegoError::Utf8DecodeError { detail }) => assert!(!detail.is_empty()),
        other => panic!("unexpected result {:?}", other),
    }
}

#[test]
fn extract_decodes_hand_written_payload() {
    let mut buf = vec![0u8; 200];
    let mut bits = header(16);
    for byte in [b'O', b'k'] {
        for i in 0..8 {
            bits.push((byte >> i) & 1);
        }
    }
    write_lsbs(&mut buf, &bits);
    assert_eq!(extract(&buf), Ok("Ok".to_string()));
}

#[test]
fn extract_keeps_short_last_byte() {
    let mut buf = vec![0u8; 200];
    let mut bits = header(3);
    bits.extend_from_slice(&[1, 0, 1]);
    write_lsbs(&mut buf, &bits);
    assert_eq!(extract(&buf), Ok("\u{5}".to_string()));
}
