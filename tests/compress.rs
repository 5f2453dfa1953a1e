use lb_dir::compress::fake_compress;

/// Reads a container by the raw-chunk rule: an empty marker chunk, then
/// frames of total size, big-endian flags with the raw bit, payload and a
/// "more" byte.
fn raw_decode(c: &[u8]) -> Option<Vec<u8>> {
    if c.len() < 3 || c[0] != 2 || c[1] != 0 {
        return None;
    }
    let mut more = c[2] != 0;
    let mut at = 3;
    let mut out = Vec::new();
    while more {
        if c.len() < at + 5 {
            return None;
        }
        let size = u16::from_le_bytes([c[at], c[at + 1]]) as usize;
        let flags = u16::from_be_bytes([c[at + 2], c[at + 3]]);
        if flags & 0xE000 != 0x2000 {
            return None;
        }
        let n = (flags & 0x1FFF) as usize;
        if size != n + 4 || c.len() < at + 5 + n {
            return None;
        }
        out.extend_from_slice(&c[at + 4..at + 4 + n]);
        more = c[at + 4 + n] != 0;
        at += 5 + n;
    }
    if at != c.len() {
        return None;
    }
    Some(out)
}

#[test]
fn empty_input_gives_marker_chunk() {
    assert_eq!(fake_compress(&[]), vec![2, 0, 0]);
}

#[test]
fn short_input_gives_one_frame() {
    assert_eq!(
        fake_compress(&[0xAA, 0xBB]),
        vec![2, 0, 1, 6, 0, 0x20, 0x02, 0xAA, 0xBB, 0]
    );
}

#[test]
fn full_chunk_then_one_byte() {
    let data: Vec<u8> = (0..0x2000u32).map(|i| (i % 251) as u8).collect();
    let out = fake_compress(&data);
    assert_eq!(out.len(), 3 + (5 + 0x1FFF) + (5 + 1));
    assert_eq!(&out[..7], &[2, 0, 1, 0x03, 0x20, 0x3F, 0xFF]);
    assert_eq!(out[7 + 0x1FFF], 1);
    assert_eq!(&out[8 + 0x1FFF..], &[5, 0, 0x20, 0x01, data[0x1FFF], 0]);
}

#[test]
fn round_trip_through_reference_reading() {
    for n in [0usize, 1, 2, 0x1FFE, 0x1FFF, 0x2000, 2 * 0x1FFF + 5] {
        let data: Vec<u8> = (0..n).map(|i| (i * 7 + 3) as u8).collect();
        assert_eq!(raw_decode(&fake_compress(&data)), Some(data));
    }
}
