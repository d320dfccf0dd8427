use dupy::hasher::{chunk_outcome, quick_hash_bytes, ChunkOutcome};

fn reference(data: &[u8]) -> u64 {
    let mut hash: u64 = 0;
    for &byte in data {
        hash = hash.rotate_left(5).wrapping_add(byte as u64);
    }
    hash
}

#[test]
fn quick_hash_values() {
    assert_eq!(quick_hash_bytes(&[]), 0);
    assert_eq!(quick_hash_bytes(&[7]), 7);
    assert_eq!(quick_hash_bytes(&[1, 2]), 34);
    assert_eq!(quick_hash_bytes(b"duplicate content\n"), reference(b"duplicate content\n"));
    let big: Vec<u8> = (0..8192u32).map(|i| (i * 31 % 251) as u8).collect();
    assert_eq!(quick_hash_bytes(&big), reference(&big));
    let ones = vec![255u8; 100];
    assert_eq!(quick_hash_bytes(&ones), reference(&ones));
}

#[test]
fn chunk_verdicts() {
    assert_eq!(chunk_outcome(&[], &[]), ChunkOutcome::Identical);
    assert_eq!(chunk_outcome(&[1, 2], &[1]), ChunkOutcome::Different);
    assert_eq!(chunk_outcome(&[], &[1]), ChunkOutcome::Different);
    assert_eq!(chunk_outcome(&[1, 2, 3], &[1, 2, 4]), ChunkOutcome::Different);
    assert_eq!(chunk_outcome(&[1, 2, 3], &[1, 2, 3]), ChunkOutcome::Continue);
}
