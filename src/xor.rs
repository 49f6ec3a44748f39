//! A deliberately weak, very fast hash for station names.
//!
//! The state is seeded with a fixed odd constant, 64-bit little-endian words
//! of the input are XOR-ed into it, and the result is finished by folding the
//! high bits down. It offers no resistance to adversarial keys.
use vstd::prelude::*;

verus! {

/// The seed of every hasher state.
pub const HASH_SEED: u64 = 0xd13c02cbc35e3d1d;

/// Little-endian value of at most eight bytes; missing high bytes are zero.
pub open spec fn word_of(s: Seq<u8>) -> u64
    recommends
        s.len() <= 8,
    decreases s.len(),
{
    if s.len() == 0 {
        0
    } else {
        word_of(s.drop_last()) | ((s.last() as u64) << ((8 * (s.len() - 1)) as u64))
    }
}

/// XOR of the little-endian words of consecutive 8-byte chunks of `s`; the
/// last chunk may be shorter, its missing bytes count as zero.
pub open spec fn xor_words(s: Seq<u8>) -> u64
    decreases s.len(),
{
    if s.len() <= 8 {
        word_of(s)
    } else {
        word_of(s.take(8)) ^ xor_words(s.skip(8))
    }
}

/// The finishing step: fold the high bits of the state down.
pub open spec fn finish_of(h: u64) -> u64 {
    h ^ (h >> 33u64) ^ (h >> 15u64)
}

/// The hash of a key: every word of its bytes folded into the seed, finished.
pub open spec fn key_hash(name: Seq<u8>) -> u64 {
    finish_of(HASH_SEED ^ xor_words(name))
}

pub proof fn lemma_xor_assoc(a: u64, b: u64, c: u64)
    ensures
        (a ^ b) ^ c == a ^ (b ^ c),
{
    assert((a ^ b) ^ c == a ^ (b ^ c)) by (bit_vector);
}

pub proof fn lemma_xor_zero(a: u64)
    ensures
        a ^ 0 == a,
{
    assert(a ^ 0 == a) by (bit_vector);
}

/// Words of whole chunks, then one more word of at most eight bytes.
pub proof fn lemma_xor_words_append(a: Seq<u8>, c: Seq<u8>)
    requires
        a.len() % 8 == 0,
        c.len() <= 8,
    ensures
        xor_words(a + c) == xor_words(a) ^ word_of(c),
    decreases a.len(),
{
    if a.len() == 0 {
        assert(a + c =~= c);
        let w = word_of(c);
        assert(0u64 ^ w == w) by (bit_vector);
    } else if a.len() == 8 && c.len() == 0 {
        assert(a + c =~= a);
        lemma_xor_zero(xor_words(a));
    } else {
        let ac = a + c;
        assert(ac.take(8) =~= a.take(8));
        assert(ac.skip(8) =~= a.skip(8) + c);
        lemma_xor_words_append(a.skip(8), c);
        if a.len() == 8 {
            assert(a.take(8) =~= a);
            assert(a.skip(8).len() == 0);
            let w = word_of(c);
            assert(0u64 ^ w == w) by (bit_vector);
        } else {
            lemma_xor_assoc(word_of(a.take(8)), xor_words(a.skip(8)), word_of(c));
        }
    }
}

/// Builds the hasher of every key: one per table, handed out fresh.
#[derive(Clone, Copy)]
pub struct XorHash;

impl XorHash {
    pub fn build_hasher(&self) -> (r: XorHasher)
        ensures
            r.state() == HASH_SEED,
    {
        XorHasher(HASH_SEED)
    }
}

/// Running state of the hash of one key.
pub struct XorHasher(u64);

impl XorHasher {
    pub closed spec fn state(&self) -> u64 {
        self.0
    }

    pub fn write_u64(&mut self, i: u64)
        ensures
            final(self).state() == old(self).state() ^ i,
    {
        self.0 = self.0 ^ i;
    }

    /// Folds the bytes in, word by word; the last word is zero-padded.
    pub fn write(&mut self, bytes: &[u8])
        ensures
            final(self).state() == old(self).state() ^ xor_words(bytes@),
    {
        let mut i: usize = 0;
        assert(bytes@.skip(0) =~= bytes@);
        while bytes.len() - i > 8
            invariant
                i <= bytes.len(),
                self.state() ^ xor_words(bytes@.skip(i as int)) == old(self).state() ^ xor_words(
                    bytes@,
                ),
            decreases bytes.len() - i,
        {
            let w = load_word(bytes, i, 8);
            proof {
                let rest = bytes@.skip(i as int);
                assert(rest.take(8) =~= bytes@.subrange(i as int, i + 8));
                assert(rest.skip(8) =~= bytes@.skip(i + 8));
                lemma_xor_assoc(self.state(), w, xor_words(bytes@.skip(i + 8)));
            }
            self.write_u64(w);
            i = i + 8;
        }
        let w = load_word(bytes, i, bytes.len() - i);
        proof {
            assert(bytes@.skip(i as int) =~= bytes@.subrange(i as int, bytes.len() as int));
        }
        self.write_u64(w);
    }

    pub fn finish(&self) -> (r: u64)
        ensures
            r == finish_of(self.state()),
    {
        let hash = self.0;
        hash ^ (hash >> 33u64) ^ (hash >> 15u64)
    }

    pub fn write_u8(&mut self, i: u8)
        ensures
            final(self).state() == old(self).state() ^ (i as u64),
    {
        self.write_u64(i as u64);
    }

    pub fn write_u16(&mut self, i: u16)
        ensures
            final(self).state() == old(self).state() ^ (i as u64),
    {
        self.write_u64(i as u64);
    }

    pub fn write_u32(&mut self, i: u32)
        ensures
            final(self).state() == old(self).state() ^ (i as u64),
    {
        self.write_u64(i as u64);
    }

    /// The low word first, then the high word.
    pub fn write_u128(&mut self, i: u128)
        ensures
            final(self).state() == old(self).state() ^ (i as u64) ^ ((i >> 64u128) as u64),
    {
        self.write_u64(i as u64);
        self.write_u64((i >> 64u128) as u64);
    }

    pub fn write_usize(&mut self, i: usize)
        ensures
            final(self).state() == old(self).state() ^ (i as u64),
    {
        self.write_u64(i as u64);
    }
}

/// The little-endian word of `bytes[start..start + n]`.
pub fn load_word(bytes: &[u8], start: usize, n: usize) -> (w: u64)
    requires
        start + n <= bytes@.len(),
        n <= 8,
    ensures
        w == word_of(bytes@.subrange(start as int, start + n)),
{
    let mut w: u64 = 0;
    let mut j: usize = 0;
    while j < n
        invariant
            j <= n,
            n <= 8,
            start + n <= bytes.len(),
            w == word_of(bytes@.subrange(start as int, start + j)),
        decreases n - j,
    {
        proof {
            let s = bytes@.subrange(start as int, start + j + 1);
            assert(s.drop_last() =~= bytes@.subrange(start as int, start + j));
        }
        w = w | ((bytes[start + j] as u64) << ((8 * j) as u64));
        j = j + 1;
    }
    w
}

} // verus!
