use tig::err::Error;
use tig::zlib::{adler32, deflate_zlib, deflate_zlib_stored, inflate_zlib};

/// The farthest that a match reaches back.
const MAX_DIST: usize = 32768;

const HELLO_FIXED: &[u8] = &[120, 156, 203, 72, 205, 201, 201, 7, 0, 6, 44, 2, 21];
const HELLO_STORED: &[u8] = &[
    120, 1, 1, 5, 0, 250, 255, 104, 101, 108, 108, 111, 6, 44, 2, 21,
];

#[test]
fn fixed_block() {
    let r = inflate_zlib(HELLO_FIXED, None).unwrap();
    assert_eq!(r.data, b"hello");
    assert_eq!(r.consumed, HELLO_FIXED.len());
}

#[test]
fn stored_block() {
    let r = inflate_zlib(HELLO_STORED, Some(5)).unwrap();
    assert_eq!(r.data, b"hello");
    assert_eq!(r.consumed, HELLO_STORED.len());
}

#[test]
fn trailing_data_ignored() {
    let mut input = HELLO_FIXED.to_vec();
    input.extend_from_slice(&[0xde, 0xad, 0xbe, 0xef]);
    let r = inflate_zlib(&input, None).unwrap();
    assert_eq!(r.data, b"hello");
    assert_eq!(r.consumed, HELLO_FIXED.len());
}

#[test]
fn corrupt_adler32_rejected() {
    let mut input = HELLO_FIXED.to_vec();
    let last = input.len() - 1;
    input[last] ^= 0xff;
    assert_eq!(
        inflate_zlib(&input, None).unwrap_err(),
        Error::Checksum("zlib adler32")
    );
}

#[test]
fn truncated_input_rejected() {
    for n in 0..HELLO_FIXED.len() {
        assert!(inflate_zlib(&HELLO_FIXED[..n], None).is_err(), "n={n}");
    }
}

#[test]
fn adler32_vectors() {
    assert_eq!(adler32(b""), 1);
    assert_eq!(adler32(b"Wikipedia"), 0x11e6_0398);
}

#[test]
fn fixed_deflate_roundtrip() {
    let mut seed: u32 = 12345;
    let mut rand = || {
        seed = seed.wrapping_mul(1_664_525).wrapping_add(1_013_904_223);
        (seed >> 24) as u8
    };
    let cases: Vec<Vec<u8>> = vec![
        Vec::new(),
        vec![0x41],
        b"hello".to_vec(),
        vec![0u8; 1000],
        (0..=255u8).collect(),
        (0..40_000).map(|i| (i % 7) as u8).collect(),
        (0..100_000).map(|i| (i % 251) as u8).collect(),
        (0..70_000).map(|_| rand()).collect(),
        b"tree 1234\nparent abcd\nauthor A <a@example.com> 1 +0000\n\nmsg\n".repeat(50),
    ];
    for (i, data) in cases.iter().enumerate() {
        let compressed = deflate_zlib(data);
        let inflated = inflate_zlib(&compressed, Some(data.len())).unwrap();
        assert_eq!(&inflated.data, data, "case {i}");
        assert_eq!(inflated.consumed, compressed.len(), "case {i}");
        assert!(
            compressed.len() <= deflate_zlib_stored(data).len(),
            "case {i}: longer than stored"
        );
    }
    let text = cases.last().unwrap();
    assert!(deflate_zlib(text).len() < text.len() / 10);
}

#[test]
fn fixed_deflate_boundary_distances() {
    for gap in [MAX_DIST - 1, MAX_DIST, MAX_DIST + 1] {
        let mut data = b"ABCDEFGHIJKLMNOP".to_vec();
        data.extend((0..gap - 16).map(|i| (i % 13) as u8 + b'a'));
        data.extend_from_slice(b"ABCDEFGHIJKLMNOP");
        let compressed = deflate_zlib(&data);
        let inflated = inflate_zlib(&compressed, None).unwrap();
        assert_eq!(inflated.data, data, "gap={gap}");
    }
    let data = vec![b'x'; 258 * 3 + 7];
    let inflated = inflate_zlib(&deflate_zlib(&data), None).unwrap();
    assert_eq!(inflated.data, data);
}

#[test]
fn fixed_deflate_matches_reference_stream() {
    assert_eq!(deflate_zlib(b"hello")[2..], HELLO_FIXED[2..]);
}

#[test]
fn stored_deflate_roundtrip() {
    for len in [0usize, 1, 100, 65_534, 65_535, 65_536, 200_000] {
        let data: Vec<u8> = (0..len).map(|i| (i % 251) as u8).collect();
        let compressed = deflate_zlib_stored(&data);
        let inflated = inflate_zlib(&compressed, Some(len)).unwrap();
        assert_eq!(inflated.data, data, "len={len}");
        assert_eq!(inflated.consumed, compressed.len(), "len={len}");
    }
}
