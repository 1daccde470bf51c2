use tig::sha1::{digest, Sha1};

fn hex(bytes: &[u8]) -> String {
    bytes.iter().map(|b| format!("{b:02x}")).collect()
}

#[test]
fn rfc3174_vectors() {
    assert_eq!(
        hex(&digest(b"abc")),
        "a9993e364706816aba3e25717850c26c9cd0d89d"
    );
    assert_eq!(
        hex(&digest(
            b"abcdbcdecdefdefgefghfghighijhijkijkljklmklmnlmnomnopnopq"
        )),
        "84983e441c3bd26ebaae4aa1f95129e5e54670f1"
    );
    assert_eq!(
        hex(&digest(&[b'a'; 1_000_000])),
        "34aa973cd4c4daa4f61eeb2bdbad27316534016f"
    );
}

#[test]
fn empty_input() {
    assert_eq!(
        hex(&digest(b"")),
        "da39a3ee5e6b4b0d3255bfef95601890afd80709"
    );
}

#[test]
fn streaming_matches_oneshot() {
    let data: Vec<u8> = (0..=255u8).cycle().take(1000).collect();
    for split in [1usize, 63, 64, 65, 127, 500] {
        let mut h = Sha1::new();
        for chunk in data.chunks(split) {
            h.update(chunk);
        }
        assert_eq!(h.finalize(), digest(&data), "split={split}");
    }
}
