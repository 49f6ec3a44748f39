//! Station names: borrowed views into the input with an inline 16-byte prefix.
use vstd::prelude::*;
use crate::hashmap::KeyHashPair;
use crate::scan::{NEWLINE, SEMICOLON};
use crate::xor::{key_hash, lemma_xor_assoc, lemma_xor_words_append, word_of, xor_words, XorHash, XorHasher, HASH_SEED};

verus! {

/// Width of the inline prefix.
pub const PREFIX_LEN: usize = 16;

/// The first 16 bytes of `s`, zero-padded where `s` is shorter.
pub open spec fn padded_prefix(s: Seq<u8>) -> Seq<u8> {
    Seq::new(16, |i: int| if i < s.len() { s[i] } else { 0u8 })
}

/// Where the key that starts at `from` ends: the first `;` or newline at or
/// after `from`, or the end of `s`.
pub open spec fn key_end(s: Seq<u8>, from: int) -> int
    decreases s.len() - from,
{
    if from < 0 || from >= s.len() {
        s.len() as int
    } else if s[from] == 59u8 || s[from] == 10u8 {
        from
    } else {
        key_end(s, from + 1)
    }
}

/// `r` is the first `;` or newline at or after `from`, or the end of `s`.
pub proof fn lemma_key_end_is(s: Seq<u8>, from: int, r: int)
    requires
        0 <= from <= r <= s.len(),
        r < s.len() ==> (s[r] == 59u8 || s[r] == 10u8),
        forall|j: int| from <= j < r ==> s[j] != 59u8 && s[j] != 10u8,
    ensures
        key_end(s, from) == r,
    decreases r - from,
{
    if from < r {
        lemma_key_end_is(s, from + 1, r);
    }
}

/// What `key_end` is: a position in range, holding `;` or a newline unless
/// it is the end, with neither before it.
pub proof fn lemma_key_end_props(s: Seq<u8>, from: int)
    requires
        0 <= from <= s.len(),
    ensures
        from <= key_end(s, from) <= s.len(),
        key_end(s, from) < s.len() ==> (s[key_end(s, from)] == 59u8 || s[key_end(s, from)]
            == 10u8),
        forall|j: int| from <= j < key_end(s, from) ==> s[j] != 59u8 && s[j] != 10u8,
    decreases s.len() - from,
{
    if from < s.len() && s[from] != 59u8 && s[from] != 10u8 {
        lemma_key_end_props(s, from + 1);
    }
}

/// A station name: the whole key as a borrowed slice, with its first 16
/// bytes (zero-padded) held inline for cheap comparisons.
#[derive(Clone, Copy)]
pub struct StationName<'a> {
    prefix: [u8; 16],
    name: &'a [u8],
}

impl<'a> View for StationName<'a> {
    type V = Seq<u8>;

    closed spec fn view(&self) -> Seq<u8> {
        self.name@
    }
}

impl<'a> StationName<'a> {
    #[verifier::type_invariant]
    spec fn inv(self) -> bool {
        self.prefix@ == padded_prefix(self.name@)
    }

    /// The name made of `name_bytes`.
    pub fn new(name_bytes: &'a [u8]) -> (r: Self)
        ensures
            r@ == name_bytes@,
    {
        let mut prefix_bytes = [0u8; 16];
        let prefix_len = if name_bytes.len() < PREFIX_LEN {
            name_bytes.len()
        } else {
            PREFIX_LEN
        };
        let mut i: usize = 0;
        while i < prefix_len
            invariant
                i <= prefix_len,
                prefix_len == if name_bytes@.len() < 16 { name_bytes@.len() } else { 16 },
                prefix_bytes@.len() == 16,
                forall|t: int|
                    0 <= t < 16 ==> #[trigger] prefix_bytes@[t] == if t < i {
                        name_bytes@[t]
                    } else {
                        0u8
                    },
            decreases prefix_len - i,
        {
            prefix_bytes[i] = name_bytes[i];
            i = i + 1;
        }
        assert(prefix_bytes@ =~= padded_prefix(name_bytes@));
        Self::new_with_prefix(prefix_bytes, name_bytes)
    }

    /// The name made of `full_name`, whose padded prefix is already known.
    pub fn new_with_prefix(prefix: [u8; 16], full_name: &'a [u8]) -> (r: Self)
        requires
            prefix@ == padded_prefix(full_name@),
        ensures
            r@ == full_name@,
    {
        StationName { prefix, name: full_name }
    }

    /// Reads the key that starts at `*file_pos`, up to the next `;`, and
    /// hashes it in the same single pass over its bytes. On success the
    /// cursor moves past the `;`; a newline or the end of the input before
    /// any `;` gives `None` and leaves the cursor.
    pub fn parse_and_hash(bytes: &'a [u8], file_pos: &mut usize, hash: &XorHash) -> (r: Option<
        KeyHashPair<'a>,
    >)
        requires
            *old(file_pos) <= bytes@.len(),
        ensures
            ({
                let p = *old(file_pos) as int;
                let e = key_end(bytes@, p);
                &&& (r is Some) == (e < bytes@.len() && bytes@[e] == 59u8)
                &&& r is Some ==> r->Some_0.key()@ == bytes@.subrange(p, e) && *final(file_pos)
                    == e + 1
                &&& r is None ==> *final(file_pos) == *old(file_pos)
            }),
    {
        let start = *file_pos;
        let mut hasher = hash.build_hasher();
        let mut prefix = [0u8; 16];
        let mut word: u64 = 0;
        let mut full: usize = 0;
        let mut fill: usize = 0;
        let mut i = start;
        proof {
            crate::xor::lemma_xor_zero(HASH_SEED);
            assert(bytes@.subrange(start as int, start as int).len() == 0);
        }
        while i < bytes.len() && bytes[i] != SEMICOLON && bytes[i] != NEWLINE
            invariant
                start <= i <= bytes@.len(),
                i == start + full + fill,
                full % 8 == 0,
                fill < 8,
                prefix@.len() == 16,
                forall|t: int|
                    0 <= t < 16 ==> #[trigger] prefix@[t] == if t < i - start {
                        bytes@[start + t]
                    } else {
                        0u8
                    },
                forall|j: int| start <= j < i ==> bytes@[j] != 59u8 && bytes@[j] != 10u8,
                hasher.state() == HASH_SEED ^ xor_words(
                    bytes@.subrange(start as int, (start + full) as int),
                ),
                word == word_of(bytes@.subrange((start + full) as int, i as int)),
            decreases bytes@.len() - i,
        {
            let b = bytes[i];
            if i - start < PREFIX_LEN {
                prefix[i - start] = b;
            }
            proof {
                let c = bytes@.subrange((start + full) as int, i + 1);
                assert(c.drop_last() =~= bytes@.subrange((start + full) as int, i as int));
            }
            word = word | ((b as u64) << ((8 * fill) as u64));
            i = i + 1;
            fill = fill + 1;
            if fill == 8 {
                proof {
                    let a = bytes@.subrange(start as int, (start + full) as int);
                    let c = bytes@.subrange((start + full) as int, i as int);
                    lemma_xor_words_append(a, c);
                    assert(a + c =~= bytes@.subrange(start as int, i as int));
                    lemma_xor_assoc(HASH_SEED, xor_words(a), word);
                }
                hasher.write_u64(word);
                word = 0;
                full = full + 8;
                fill = 0;
                assert(bytes@.subrange((start + full) as int, i as int).len() == 0);
            }
        }
        if i == bytes.len() || bytes[i] == NEWLINE {
            proof {
                lemma_key_end_is(bytes@, start as int, i as int);
            }
            return None;
        }
        proof {
            lemma_key_end_is(bytes@, start as int, i as int);
            let a = bytes@.subrange(start as int, (start + full) as int);
            let c = bytes@.subrange((start + full) as int, i as int);
            lemma_xor_words_append(a, c);
            assert(a + c =~= bytes@.subrange(start as int, i as int));
            lemma_xor_assoc(HASH_SEED, xor_words(a), word);
        }
        hasher.write_u64(word);
        let full_name = &bytes[start..i];
        assert(prefix@ =~= padded_prefix(full_name@));
        let name = StationName::new_with_prefix(prefix, full_name);
        let h = hasher.finish();
        *file_pos = i + 1;
        Some(KeyHashPair::new_unchecked(name, h))
    }

    /// The bytes beyond the inline prefix; empty for a name of at most 16
    /// bytes.
    pub fn remainder(&self) -> (r: &'a [u8])
        ensures
            r@ == if self@.len() > 16 {
                self@.skip(16)
            } else {
                Seq::<u8>::empty()
            },
    {
        if self.name.len() > PREFIX_LEN {
            &self.name[PREFIX_LEN..self.name.len()]
        } else {
            &self.name[0..0]
        }
    }

    /// The whole name, as bytes of the input.
    pub fn to_bytes(&self) -> (r: &'a [u8])
        ensures
            r@ == self@,
    {
        self.name
    }

    /// Folds the whole name into `state`, word by word.
    pub fn hash(&self, state: &mut XorHasher)
        ensures
            final(state).state() == old(state).state() ^ xor_words(self@),
    {
        state.write(self.name);
    }

    /// The hash under which tables file this name.
    pub fn hash_with(&self, hasher: &XorHash) -> (r: u64)
        ensures
            r == key_hash(self@),
    {
        let mut state = hasher.build_hasher();
        self.hash(&mut state);
        state.finish()
    }
}

impl<'a> PartialEq for StationName<'a> {
    /// Prefixes first; then lengths; then the bytes beyond the prefix.
    fn eq(&self, other: &Self) -> bool {
        proof {
            use_type_invariant(self);
            use_type_invariant(other);
        }
        let mut i: usize = 0;
        while i < PREFIX_LEN
            invariant
                i <= 16,
                self.prefix@ == padded_prefix(self.name@),
                other.prefix@ == padded_prefix(other.name@),
                forall|t: int| 0 <= t < i ==> self.prefix@[t] == other.prefix@[t],
            decreases 16 - i,
        {
            if self.prefix[i] != other.prefix[i] {
                assert(padded_prefix(self.name@)[i as int] != padded_prefix(other.name@)[i as int]);
                return false;
            }
            i = i + 1;
        }
        if self.name.len() != other.name.len() {
            return false;
        }
        let n = self.name.len();
        let mut j: usize = PREFIX_LEN;
        while j < n
            invariant
                n == self.name@.len(),
                n == other.name@.len(),
                16 <= j,
                forall|t: int| 0 <= t < 16 ==> self.prefix@[t] == other.prefix@[t],
                self.prefix@ == padded_prefix(self.name@),
                other.prefix@ == padded_prefix(other.name@),
                forall|t: int| 16 <= t < j && t < n ==> self.name@[t] == other.name@[t],
            decreases n - j,
        {
            if self.name[j] != other.name[j] {
                return false;
            }
            j = j + 1;
        }
        assert forall|t: int| 0 <= t < n implies self.name@[t] == other.name@[t] by {
            if t < 16 {
                assert(padded_prefix(self.name@)[t] == self.name@[t]);
                assert(padded_prefix(other.name@)[t] == other.name@[t]);
            }
        }
        assert(self.name@ =~= other.name@);
        true
    }
}

impl<'a> vstd::std_specs::cmp::PartialEqSpecImpl for StationName<'a> {
    open spec fn obeys_eq_spec() -> bool {
        true
    }

    open spec fn eq_spec(&self, other: &Self) -> bool {
        self@ == other@
    }
}

} // verus!
