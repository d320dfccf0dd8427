//! The content checks of the search: a quick hash of a file's first block,
//! and the verdict on two blocks read side by side.

use vstd::prelude::*;

verus! {

/// The size of the blocks read from files.
pub const CHUNK_SIZE: usize = 8192usize;

/// `h` rotated left by five bits.
pub open spec fn rotate5(h: u64) -> u64 {
    ((h as int * 32) % 0x1_0000_0000_0000_0000 + h as int / 0x800_0000_0000_0000) as u64
}

/// The quick hash of `data`: starting from zero, each byte in turn is added
/// (modulo 2^64) to the hash rotated left by five bits.
pub open spec fn quick_hash_spec(data: Seq<u8>) -> u64
    decreases data.len(),
{
    if data.len() == 0 {
        0
    } else {
        ((rotate5(quick_hash_spec(data.drop_last())) as int + data.last() as int)
            % 0x1_0000_0000_0000_0000) as u64
    }
}

/// `h` rotated left by five bits.
fn rotate_left5(h: u64) -> (r: u64)
    ensures
        r == rotate5(h),
{
    let r = (h << 5u64) | (h >> 59u64);
    assert(r == ((h as int * 32) % 0x1_0000_0000_0000_0000 + h as int / 0x800_0000_0000_0000) as u64)
        by (bit_vector)
        requires
            r == (h << 5u64) | (h >> 59u64),
    ;
    r
}

/// The quick hash of the bytes read from the start of a file.
pub fn quick_hash_bytes(data: &[u8]) -> (h: u64)
    ensures
        h == quick_hash_spec(data@),
{
    let mut h: u64 = 0;
    for i in 0..data.len()
        invariant
            h == quick_hash_spec(data@.take(i as int)),
    {
        proof {
            assert(data@.take(i + 1).drop_last() =~= data@.take(i as int));
        }
        h = rotate_left5(h).wrapping_add(data[i] as u64);
    }
    proof {
        assert(data@.take(data@.len() as int) =~= data@);
    }
    h
}

/// What two blocks read side by side from two files say about them.
#[derive(Debug, Clone, Copy, PartialEq, Eq, Structural)]
pub enum ChunkOutcome {
    /// The files differ.
    Different,
    /// Both files ended together: they are identical.
    Identical,
    /// The blocks agree; read on.
    Continue,
}

/// The verdict on blocks `a` and `b` read from two files at the same
/// offset: blocks of different lengths mean different files, two empty
/// blocks mean both ended, and otherwise the bytes must agree to read on.
pub open spec fn chunk_outcome_spec(a: Seq<u8>, b: Seq<u8>) -> ChunkOutcome {
    if a.len() != b.len() {
        ChunkOutcome::Different
    } else if a.len() == 0 {
        ChunkOutcome::Identical
    } else if a != b {
        ChunkOutcome::Different
    } else {
        ChunkOutcome::Continue
    }
}

/// The verdict on blocks `a` and `b` read from two files at the same
/// offset.
pub fn chunk_outcome(a: &[u8], b: &[u8]) -> (r: ChunkOutcome)
    ensures
        r == chunk_outcome_spec(a@, b@),
        r != ChunkOutcome::Different <==> a@ == b@,
        r == ChunkOutcome::Identical <==> a@.len() == 0 && b@.len() == 0,
{
    proof {
        lemma_chunk_outcome_compares_every_byte(a@, b@);
    }
    if a.len() != b.len() {
        return ChunkOutcome::Different;
    }
    if a.len() == 0 {
        return ChunkOutcome::Identical;
    }
    let n = a.len();
    for i in 0..n
        invariant
            n == a@.len(),
            n == b@.len(),
            forall|j: int| 0 <= j < i ==> a@[j] == b@[j],
    {
        if a[i] != b[i] {
            return ChunkOutcome::Different;
        }
    }
    proof {
        assert(a@ =~= b@);
    }
    ChunkOutcome::Continue
}

/// Two blocks are passed only when they are equal: the verdict is
/// `Different` exactly when some byte differs (the first one as much as any
/// other) or the lengths differ, `Identical` exactly when both blocks are
/// empty, and `Continue` exactly when both hold the same bytes and are not
/// empty.
pub proof fn lemma_chunk_outcome_compares_every_byte(a: Seq<u8>, b: Seq<u8>)
    ensures
        chunk_outcome_spec(a, b) != ChunkOutcome::Different <==> a == b,
        chunk_outcome_spec(a, b) == ChunkOutcome::Different <==> (a.len() != b.len() || exists|
            i: int,
        | 0 <= i < a.len() && a[i] != b[i]),
        chunk_outcome_spec(a, b) == ChunkOutcome::Identical <==> a.len() == 0 && b.len() == 0,
        chunk_outcome_spec(a, b) == ChunkOutcome::Continue <==> a == b && a.len() > 0,
{
    if a.len() == b.len() && a != b {
        assert(exists|i: int| 0 <= i < a.len() && a[i] != b[i]) by {
            if forall|i: int| 0 <= i < a.len() ==> a[i] == b[i] {
                assert(a =~= b);
            }
        }
    }
}

} // verus!
