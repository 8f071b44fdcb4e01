//! Content fingerprinting: the file is cut into fixed-size blocks, each
//! block is hashed, the per-block digests are concatenated in order, and
//! the digest of that concatenation is the fingerprint. The fingerprint
//! doubles as the dedup key against storage backends whose native
//! existence check uses the same scheme.

use vstd::prelude::*;
use sha2::Digest;

verus! {

/// Size of one fingerprint block: 4 MiB.
pub const BLOCK_SIZE: usize = 4194304;

/// The 256-bit digest that the hash function assigns to a byte string.
pub uninterp spec fn sha256_of(bytes: Seq<u8>) -> Seq<u8>;

/// Relies on sha2::Sha256 through the Digest trait: the digest depends on
/// the input bytes alone, and is exactly 32 bytes long.
#[verifier::external_body]
fn sha256(bytes: &[u8]) -> (r: Vec<u8>)
    ensures
        r@ == sha256_of(bytes@),
        r@.len() == 32,
{
    sha2::Sha256::digest(bytes).to_vec()
}

/// The concatenation, in block order, of the digests of each block.
pub open spec fn block_digests(data: Seq<u8>) -> Seq<u8>
    decreases data.len(),
{
    if data.len() == 0 {
        Seq::empty()
    } else if data.len() <= BLOCK_SIZE {
        sha256_of(data)
    } else {
        sha256_of(data.take(BLOCK_SIZE as int)) + block_digests(data.skip(BLOCK_SIZE as int))
    }
}

/// The fingerprint of a byte string: the digest of the concatenated
/// per-block digests. A zero-length input has zero blocks, so its
/// fingerprint is the digest of the empty string.
pub open spec fn fingerprint_spec(data: Seq<u8>) -> Seq<u8> {
    sha256_of(block_digests(data))
}

/// Law: the fingerprint is a function of the content alone, so repeated
/// fingerprinting of the same bytes always yields the same result.
pub proof fn lemma_fingerprint_deterministic(a: Seq<u8>, b: Seq<u8>)
    requires
        a == b,
    ensures
        fingerprint_spec(a) == fingerprint_spec(b),
{
}

/// Law: the fingerprint of the empty file is the fixed constant obtained
/// by hashing the empty concatenation of block digests.
pub proof fn lemma_empty_fingerprint()
    ensures
        fingerprint_spec(Seq::<u8>::empty()) == sha256_of(Seq::<u8>::empty()),
{
    assert(block_digests(Seq::<u8>::empty()) =~= Seq::<u8>::empty());
}

/// Splitting off whole leading blocks splits the digest concatenation.
proof fn lemma_block_digests_concat(p: Seq<u8>, t: Seq<u8>)
    requires
        p.len() as int % (BLOCK_SIZE as int) == 0,
    ensures
        block_digests(p + t) == block_digests(p) + block_digests(t),
    decreases p.len(),
{
    if p.len() == 0 {
        assert(p + t =~= t);
        assert(block_digests(p) + block_digests(t) =~= block_digests(t));
    } else {
        assert(p.len() >= BLOCK_SIZE);
        let rest = p.skip(BLOCK_SIZE as int);
        assert(rest.len() as int % (BLOCK_SIZE as int) == 0);
        lemma_block_digests_concat(rest, t);
        if p.len() == BLOCK_SIZE {
            if t.len() == 0 {
                assert(p + t =~= p);
                assert(block_digests(p) + block_digests(t) =~= block_digests(p));
            } else {
                assert((p + t).len() > BLOCK_SIZE);
                assert((p + t).take(BLOCK_SIZE as int) =~= p);
                assert((p + t).skip(BLOCK_SIZE as int) =~= t);
                assert(rest =~= Seq::<u8>::empty());
                assert(rest + t =~= t);
                assert(block_digests(p) + block_digests(t) =~= sha256_of(p) + block_digests(t));
            }
        } else {
            assert((p + t).len() > BLOCK_SIZE);
            assert((p + t).take(BLOCK_SIZE as int) =~= p.take(BLOCK_SIZE as int));
            assert((p + t).skip(BLOCK_SIZE as int) =~= rest + t);
            assert(sha256_of(p.take(BLOCK_SIZE as int)) + (block_digests(rest) + block_digests(t))
                =~= (sha256_of(p.take(BLOCK_SIZE as int)) + block_digests(rest)) + block_digests(
                t,
            ));
        }
    }
}

/// Computes the fingerprint of a byte string held in memory, hashing it
/// block by block.
pub fn fingerprint_bytes(data: &[u8]) -> (r: Vec<u8>)
    ensures
        r@ == fingerprint_spec(data@),
        r@.len() == 32,
{
    let mut digests: Vec<u8> = Vec::new();
    let mut i: usize = 0;
    proof {
        assert(data@.skip(0) =~= data@);
        assert(digests@ + block_digests(data@) =~= block_digests(data@));
    }
    while i < data.len()
        invariant
            0 <= i <= data@.len(),
            digests@ + block_digests(data@.skip(i as int)) == block_digests(data@),
        decreases data@.len() - i,
    {
        let remaining = data.len() - i;
        let take = if remaining < BLOCK_SIZE {
            remaining
        } else {
            BLOCK_SIZE
        };
        let chunk = vstd::slice::slice_subrange(data, i, i + take);
        let d = sha256(chunk);
        proof {
            let tail = data@.skip(i as int);
            if remaining <= BLOCK_SIZE {
                assert(chunk@ =~= tail);
                assert(block_digests(tail) == sha256_of(tail));
                assert(data@.skip(i + take) =~= Seq::<u8>::empty());
                assert((digests@ + d@) + block_digests(data@.skip(i + take)) =~= digests@ + d@);
            } else {
                assert(chunk@ =~= tail.take(BLOCK_SIZE as int));
                assert(tail.skip(BLOCK_SIZE as int) =~= data@.skip(i + take));
                assert((digests@ + d@) + block_digests(data@.skip(i + take)) =~= digests@ + (d@
                    + block_digests(tail.skip(BLOCK_SIZE as int))));
            }
        }
        let mut d = d;
        digests.append(&mut d);
        i += take;
    }
    proof {
        assert(data@.skip(data@.len() as int) =~= Seq::<u8>::empty());
        assert(digests@ + Seq::<u8>::empty() =~= digests@);
    }
    sha256(digests.as_slice())
}

/// An incremental fingerprinter: bytes are fed in chunks of any size and
/// at most one block is buffered, so a file never has to be resident in
/// memory as a whole.
pub struct Fingerprinter {
    buffer: Vec<u8>,
    digests: Vec<u8>,
    processed: Ghost<Seq<u8>>,
}

impl Fingerprinter {
    /// All bytes fed so far.
    pub closed spec fn fed(self) -> Seq<u8> {
        self.processed@ + self.buffer@
    }

    /// The buffered tail stays shorter than one block, and the digests of
    /// all complete blocks consumed so far have been accumulated.
    pub closed spec fn wf(self) -> bool {
        &&& self.processed@.len() as int % (BLOCK_SIZE as int) == 0
        &&& self.buffer@.len() < BLOCK_SIZE
        &&& self.digests@ == block_digests(self.processed@)
    }

    pub fn new() -> (r: Self)
        ensures
            r.wf(),
            r.fed() == Seq::<u8>::empty(),
    {
        let r = Fingerprinter { buffer: Vec::new(), digests: Vec::new(), processed: Ghost(Seq::empty()) };
        proof {
            assert(r.fed() =~= Seq::<u8>::empty());
        }
        r
    }

    /// Feeds one chunk; every complete block now available is hashed at
    /// once and its digest accumulated.
    pub fn update(&mut self, chunk: &[u8])
        requires
            old(self).wf(),
        ensures
            final(self).wf(),
            final(self).fed() == old(self).fed() + chunk@,
    {
        self.buffer.extend_from_slice(chunk);
        let ghost target = self.processed@ + self.buffer@;
        proof {
            assert(target =~= old(self).fed() + chunk@);
        }
        while self.buffer.len() >= BLOCK_SIZE
            invariant
                self.processed@.len() as int % (BLOCK_SIZE as int) == 0,
                self.digests@ == block_digests(self.processed@),
                self.processed@ + self.buffer@ == target,
            decreases self.buffer@.len(),
        {
            let ghost p = self.processed@;
            let tail = self.buffer.split_off(BLOCK_SIZE);
            let ghost block = self.buffer@;
            let mut d = sha256(self.buffer.as_slice());
            proof {
                lemma_block_digests_concat(p, block);
                assert(block_digests(block) == sha256_of(block));
                assert((p + block) + tail@ =~= target);
                assert((p + block).len() as int % (BLOCK_SIZE as int) == 0);
            }
            self.digests.append(&mut d);
            self.buffer = tail;
            self.processed = Ghost(p + block);
        }
        proof {
            assert(final(self).fed() == target);
        }
    }

    /// Hashes any buffered tail as the final, possibly shorter, block and
    /// returns the fingerprint of everything fed.
    pub fn finish(self) -> (r: Vec<u8>)
        requires
            self.wf(),
        ensures
            r@ == fingerprint_spec(self.fed()),
            r@.len() == 32,
    {
        let Fingerprinter { buffer, mut digests, processed } = self;
        proof {
            lemma_block_digests_concat(processed@, buffer@);
        }
        if buffer.len() > 0 {
            let mut d = sha256(buffer.as_slice());
            proof {
                assert(block_digests(buffer@) == sha256_of(buffer@));
            }
            digests.append(&mut d);
        } else {
            proof {
                assert(block_digests(buffer@) =~= Seq::<u8>::empty());
                assert(digests@ + block_digests(buffer@) =~= digests@);
            }
        }
        sha256(digests.as_slice())
    }
}

} // verus!
