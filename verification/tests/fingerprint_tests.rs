use archiver::fingerprint::{fingerprint_bytes, Fingerprinter, BLOCK_SIZE};
use sha2::{Digest, Sha256};

#[test]
fn test_fingerprint_is_deterministic() {
    let data = b"some bytes worth archiving".to_vec();
    assert_eq!(fingerprint_bytes(&data), fingerprint_bytes(&data));
}

#[test]
fn test_fingerprint_changes_with_one_byte() {
    let data = vec![7u8; 1024];
    let mut tweaked = data.clone();
    tweaked[512] ^= 1;
    assert_ne!(fingerprint_bytes(&data), fingerprint_bytes(&tweaked));
}

#[test]
fn test_empty_fingerprint_is_the_fixed_constant() {
    // zero blocks concatenate to the empty string, whose digest is the
    // well-known empty-input value
    let fp = fingerprint_bytes(&[]);
    assert_eq!(
        hex::encode(&fp),
        "e3b0c44298fc1c149afbf4c8996fb92427ae41e4649b934ca495991b7852b855"
    );
}

#[test]
fn test_single_block_matches_reference_vector() {
    // one short block: the fingerprint is the digest of that block's digest
    let data = b"hello".to_vec();
    let expected = Sha256::digest(Sha256::digest(&data)).to_vec();
    assert_eq!(fingerprint_bytes(&data), expected);
}

#[test]
fn test_multi_block_matches_reference_vector() {
    let mut data = vec![0xABu8; BLOCK_SIZE];
    data.push(0xCD);
    let d1 = Sha256::digest(&data[..BLOCK_SIZE]);
    let d2 = Sha256::digest(&data[BLOCK_SIZE..]);
    let mut cat = d1.to_vec();
    cat.extend_from_slice(&d2);
    let expected = Sha256::digest(&cat).to_vec();
    assert_eq!(fingerprint_bytes(&data), expected);
}

#[test]
fn test_streaming_fingerprinter_matches_one_shot() {
    let mut data = vec![0x5Au8; BLOCK_SIZE + 12345];
    data.extend_from_slice(b"trailing");
    let mut fp = Fingerprinter::new();
    for chunk in data.chunks(65536) {
        fp.update(chunk);
    }
    assert_eq!(fp.finish(), fingerprint_bytes(&data));
}
