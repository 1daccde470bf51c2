use tig::delta::apply;

#[test]
fn insert_only() {
    let delta = [0, 5, 5, b'h', b'e', b'l', b'l', b'o'];
    assert_eq!(apply(b"", &delta).unwrap(), b"hello");
}

#[test]
fn copy_and_insert() {
    let delta = [11, 6, 0x91, 6, 5, 1, b'!'];
    assert_eq!(apply(b"hello world", &delta).unwrap(), b"world!");
}

#[test]
fn size_mismatch_rejected() {
    let delta = [0, 4, 5, b'h', b'e', b'l', b'l', b'o'];
    assert!(apply(b"", &delta).is_err());
}

#[test]
fn out_of_range_copy_rejected() {
    let delta = [5, 5, 0x91, 4, 5];
    assert!(apply(b"abcde", &delta).is_err());
}
