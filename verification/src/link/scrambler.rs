//! XOR whitening with a ChaCha12 keystream drawn from a fixed seed.
use rand::{Rng, SeedableRng};
use vstd::prelude::*;

verus! {

/// The first `len` bytes that `rand_chacha::ChaCha12Rng::seed_from_u64(seed)`
/// yields through `Rng::random::<u8>()`.
pub uninterp spec fn chacha12_bytes(seed: u64, len: nat) -> Seq<u8>;

/// Whether the keystream of length `m` has `m` bytes and starts with the
/// keystream of each shorter length.
pub open spec fn keystream_prefixes(seed: u64, m: nat) -> bool {
    &&& chacha12_bytes(seed, m).len() == m
    &&& forall|k: nat|
        k <= m ==> #[trigger] chacha12_bytes(seed, k) == chacha12_bytes(seed, m).take(k as int)
}

/// Seeds `rand_chacha::ChaCha12Rng` with `SeedableRng::seed_from_u64(seed)`
/// and draws `len` bytes with `Rng::random::<u8>()`. Claimed: the result is
/// `chacha12_bytes(seed, len)`, a function of the seed and the length alone
/// (the generator is seeded afresh on every call), with `len` bytes; and,
/// since the bytes are drawn one after another from that fresh generator,
/// its first `k` bytes are the keystream of length `k`.
#[verifier::external_body]
fn chacha12_mask(seed: u64, len: usize) -> (mask: Vec<u8>)
    ensures
        mask@ == chacha12_bytes(seed, len as nat),
        mask@.len() == len,
        forall|k: nat| k <= len ==> #[trigger] chacha12_bytes(seed, k) == mask@.take(k as int),
{
    let mut rng = rand_chacha::ChaCha12Rng::seed_from_u64(seed);
    (0..len).map(|_| rng.random::<u8>()).collect()
}

/// `data` XOR-ed bytewise with `mask` (which is at least as long).
pub open spec fn xor_bytes(data: Seq<u8>, mask: Seq<u8>) -> Seq<u8> {
    Seq::new(data.len(), |i: int| (data[i] ^ mask[i]) as u8)
}

pub struct Scrambler {
    seed: u64,
}

impl Scrambler {
    pub closed spec fn spec_seed(&self) -> u64 {
        self.seed
    }

    /// The whitening of `data`: each byte XOR-ed with the keystream byte at
    /// its position.
    pub open spec fn spec_scramble(&self, data: Seq<u8>) -> Seq<u8> {
        xor_bytes(data, chacha12_bytes(self.spec_seed(), data.len()))
    }

    pub fn new(seed: u64) -> (s: Self)
        ensures
            s.spec_seed() == seed,
    {
        Self { seed }
    }

    /// The first `len` keystream bytes.
    pub fn mask(&self, len: usize) -> (m: Vec<u8>)
        ensures
            m@ == chacha12_bytes(self.spec_seed(), len as nat),
            m@.len() == len,
            keystream_prefixes(self.spec_seed(), len as nat),
    {
        chacha12_mask(self.seed, len)
    }

    pub fn scramble(&self, data: &[u8]) -> (out: Vec<u8>)
        ensures
            out@ == self.spec_scramble(data@),
    {
        let mask = self.mask(data.len());
        let mut out: Vec<u8> = Vec::with_capacity(data.len());
        let mut i: usize = 0;
        while i < data.len()
            invariant
                i <= data@.len(),
                mask@.len() == data@.len(),
                mask@ == chacha12_bytes(self.spec_seed(), data@.len()),
                out@.len() == i,
                forall|j: int| 0 <= j < i ==> out@[j] == (data@[j] ^ mask@[j]) as u8,
            decreases data@.len() - i,
        {
            out.push(data[i] ^ mask[i]);
            i = i + 1;
        }
        assert(out@ =~= self.spec_scramble(data@));
        out
    }

    /// Scrambling is its own inverse.
    pub fn descramble(&self, data: &[u8]) -> (out: Vec<u8>)
        ensures
            out@ == self.spec_scramble(data@),
    {
        self.scramble(data)
    }

    /// Descrambling undoes scrambling, for every seed and every input.
    pub proof fn lemma_descramble_scramble(&self, data: Seq<u8>)
        ensures
            self.spec_scramble(self.spec_scramble(data)) == data,
    {
        let s = self.spec_scramble(data);
        let m = chacha12_bytes(self.spec_seed(), data.len());
        assert(s.len() == data.len());
        assert forall|i: int| 0 <= i < data.len() implies #[trigger] self.spec_scramble(s)[i]
            == data[i] by {
            let d = data[i];
            let k = m[i];
            assert(((d ^ k) as u8 ^ k) as u8 == d) by (bit_vector);
        }
        assert(self.spec_scramble(s) =~= data);
    }
}

} // verus!
