use huggingfacedownloader::hashing::{hash_kind, FileHash, HashKind, HashStep, ReadEvent};

fn hash(kind: HashKind, pieces: &[&[u8]]) -> String {
    let mut file = FileHash::new(kind);
    for piece in pieces {
        file = match file.step(ReadEvent::Bytes(piece)) {
            HashStep::More(next) => next,
            _ => panic!("the file has not ended"),
        };
    }
    match file.step(ReadEvent::Bytes(&[])) {
        HashStep::Finished(hash) => hash,
        _ => panic!("the file has ended"),
    }
}

#[test]
fn known_digests() {
    assert_eq!(
        hash(HashKind::Sha256, &[]),
        "e3b0c44298fc1c149afbf4c8996fb92427ae41e4649b934ca495991b7852b855"
    );
    assert_eq!(
        hash(HashKind::Sha256, &[b"abc"]),
        "ba7816bf8f01cfea414140de5dae2223b00361a396177a9cb410ff61f20015ad"
    );
    assert_eq!(hash(HashKind::Sha1, &[]), "da39a3ee5e6b4b0d3255bfef95601890afd80709");
    assert_eq!(hash(HashKind::Sha1, &[b"abc"]), "a9993e364706816aba3e25717850c26c9cd0d89d");
}

#[test]
fn the_pieces_do_not_matter() {
    let file: Vec<u8> = (0..1000).map(|i| (i % 251) as u8).collect();
    for kind in [HashKind::Sha1, HashKind::Sha256] {
        let whole = hash(kind, &[&file]);
        for cut in [1, 63, 64, 65, 999] {
            assert_eq!(hash(kind, &[&file[..cut], &file[cut..]]), whole);
        }
        assert_eq!(hash_kind(&whole), kind);
        assert_eq!(whole.len(), if kind == HashKind::Sha1 { 40 } else { 64 });
    }
}

#[test]
fn the_length_tells_the_hash_function() {
    assert_eq!(hash_kind(&"a".repeat(40)), HashKind::Sha1);
    assert_eq!(hash_kind(&"a".repeat(64)), HashKind::Sha256);
    assert_eq!(hash_kind(""), HashKind::Sha256);
    assert_eq!(hash_kind(&"é".repeat(20)), HashKind::Sha1);
    assert_eq!(hash_kind(&"é".repeat(40)), HashKind::Sha256);
}

#[test]
fn the_bytes_are_counted() {
    let file = FileHash::new(HashKind::Sha1);
    assert_eq!(file.length(), 0);
    match file.step(ReadEvent::Bytes(b"abcd")) {
        HashStep::More(next) => assert_eq!(next.length(), 4),
        _ => panic!("the file has not ended"),
    }
}

#[test]
fn reading_may_fail() {
    match FileHash::new(HashKind::Sha256).step(ReadEvent::TimedOut) {
        HashStep::Failed(e) => assert_eq!(e, "Hash computation timed out"),
        _ => panic!("no failure"),
    }
    match FileHash::new(HashKind::Sha1).step(ReadEvent::Failed("disk".to_string())) {
        HashStep::Failed(e) => assert_eq!(e, "disk"),
        _ => panic!("no failure"),
    }
}
