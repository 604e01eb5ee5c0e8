use dupehunter::hasher::{digest_of_bytes, ContentHasher, HashProgress, CHUNK_SIZE};
use sha2::{Digest, Sha256};

const HELLO: &str = "2cf24dba5fb0a30e26e83b2ac5b9e29e1b161e5c1fa7425e73043362938b9824";
const WORLD: &str = "486ea46224d1bb4fb680f34f7c9ad96a8f24ec88be73ea8e5a6c65260e9cb8a7";
const EMPTY: &str = "e3b0c44298fc1c149afbf4c8996fb92427ae41e4649b934ca495991b7852b855";
const HELLO_WORLD: &str = "b94d27b9934d3e08a52e52d7da7dabfac484efe37a5380ee9088f7ace2efcde9";

#[test]
fn digest_of_known_contents() {
    assert_eq!(digest_of_bytes(b"hello"), HELLO);
    assert_eq!(digest_of_bytes(b"world"), WORLD);
    assert_eq!(digest_of_bytes(b"hello world"), HELLO_WORLD);
}

#[test]
fn digest_of_empty_content() {
    assert_eq!(digest_of_bytes(b""), EMPTY);
    assert_eq!(ContentHasher::new().finalize(), EMPTY);
}

#[test]
fn digest_is_sixty_four_lower_case_hex_digits() {
    let digest = digest_of_bytes(b"any content at all");
    assert_eq!(digest.len(), 64);
    assert!(digest.chars().all(|c| matches!(c, '0'..='9' | 'a'..='f')));
}

#[test]
fn digest_is_not_the_content() {
    let content = b"2cf24dba5fb0a30e26e83b2ac5b9e29e1b161e5c1fa7425e73043362938b9824";
    assert_ne!(digest_of_bytes(content).as_bytes(), &content[..]);
}

#[test]
fn updates_accumulate_in_order() {
    let mut split = ContentHasher::new();
    split.update(b"hello");
    split.update(b" ");
    split.update(b"world");
    assert_eq!(split.finalize(), HELLO_WORLD);

    let mut swapped = ContentHasher::new();
    swapped.update(b"world");
    swapped.update(b" ");
    swapped.update(b"hello");
    assert_ne!(swapped.finalize(), HELLO_WORLD);
}

#[test]
fn empty_update_changes_nothing() {
    let mut hasher = ContentHasher::new();
    hasher.update(b"");
    hasher.update(b"hello");
    hasher.update(b"");
    assert_eq!(hasher.finalize(), HELLO);
}

#[test]
fn equal_contents_have_equal_digests() {
    let first = vec![7u8; 3000];
    let second = vec![7u8; 3000];
    assert_eq!(digest_of_bytes(&first), digest_of_bytes(&second));
}

#[test]
fn one_differing_byte_changes_the_digest() {
    let first = vec![7u8; 3000];
    let mut second = vec![7u8; 3000];
    second[2999] = 8;
    assert_ne!(digest_of_bytes(&first), digest_of_bytes(&second));
}

#[test]
fn chunking_does_not_show_in_the_digest() {
    let mut content = Vec::new();
    for i in 0..(3 * CHUNK_SIZE + 17) {
        content.push((i % 251) as u8);
    }
    let expected = hex::encode(Sha256::digest(&content));
    assert_eq!(digest_of_bytes(&content), expected);

    let mut hasher = ContentHasher::new();
    for piece in content.chunks(1000) {
        hasher.update(piece);
    }
    assert_eq!(hasher.finalize(), expected);
}

#[test]
fn content_of_exactly_one_chunk() {
    let content = vec![0xabu8; CHUNK_SIZE];
    assert_eq!(digest_of_bytes(&content), hex::encode(Sha256::digest(&content)));
    let longer = vec![0xabu8; CHUNK_SIZE + 1];
    assert_eq!(digest_of_bytes(&longer), hex::encode(Sha256::digest(&longer)));
}

#[test]
fn chunk_size_is_eight_kibibytes() {
    assert_eq!(CHUNK_SIZE, 8192);
}

#[test]
fn reads_are_absorbed_until_the_stream_ends() {
    let buffer = *b"helloXXX";
    let hasher = ContentHasher::new();
    let hasher = match hasher.absorb_read(&buffer, 5) {
        HashProgress::More(next) => next,
        HashProgress::Done(_) => panic!("a read of five bytes does not end the stream"),
    };
    match hasher.absorb_read(&buffer, 0) {
        HashProgress::Done(digest) => {
            assert_eq!(digest.len(), 64);
            assert_eq!(digest, HELLO);
        }
        HashProgress::More(_) => panic!("a read of no bytes ends the stream"),
    }
}

#[test]
fn only_the_bytes_read_are_absorbed() {
    let first = *b"worldAAA";
    let second = *b"worldBBB";
    let a = match ContentHasher::new().absorb_read(&first, 5) {
        HashProgress::More(next) => next.finalize(),
        HashProgress::Done(_) => panic!("stream ended early"),
    };
    let b = match ContentHasher::new().absorb_read(&second, 5) {
        HashProgress::More(next) => next.finalize(),
        HashProgress::Done(_) => panic!("stream ended early"),
    };
    assert_eq!(a, WORLD);
    assert_eq!(b, WORLD);
}

#[test]
fn an_immediate_end_of_stream_gives_the_empty_digest() {
    let buffer = [0u8; 16];
    match ContentHasher::new().absorb_read(&buffer, 0) {
        HashProgress::Done(digest) => assert_eq!(digest, EMPTY),
        HashProgress::More(_) => panic!("a read of no bytes ends the stream"),
    }
}
