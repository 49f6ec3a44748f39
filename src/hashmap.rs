//! A fixed-capacity, single-slot-per-bucket table from station names to
//! running statistics, with an unbounded overflow store behind it.
use vstd::prelude::*;
use crate::station::StationName;
use crate::summary::{empty_stats, lookup, merge_stats, stats_combine, stats_fit, Stats, StationSummary};
use crate::xor::{key_hash, XorHash, XorHasher, HASH_SEED};

verus! {

/// A name together with its hash, as the table files it.
#[derive(Clone, Copy)]
pub struct KeyHashPair<'a> {
    key: StationName<'a>,
    hash: u64,
}

impl<'a> KeyHashPair<'a> {
    #[verifier::type_invariant]
    spec fn inv(self) -> bool {
        self.hash == key_hash(self.key@)
    }

    /// Pairs a name with its hash, computed elsewhere.
    pub fn new_unchecked(key: StationName<'a>, hash: u64) -> (r: Self)
        requires
            hash == key_hash(key@),
        ensures
            r.key() == key,
            r.hash() == hash,
    {
        KeyHashPair { key, hash }
    }

    /// The stored hash, which is always the hash of the name.
    pub fn hash_value(&self) -> (r: u64)
        ensures
            r == self.hash(),
            r == key_hash(self.key()@),
    {
        proof {
            use_type_invariant(self);
        }
        self.hash
    }

    /// The name.
    pub fn name(&self) -> (r: StationName<'a>)
        ensures
            r == self.key(),
    {
        self.key
    }

    pub closed spec fn key(&self) -> StationName<'a> {
        self.key
    }

    pub closed spec fn hash(&self) -> u64 {
        self.hash
    }
}


/// Names that a table can look up: they hand over themselves and their hash.
pub trait Key<'a>: Sized {
    spec fn key_view(&self) -> Seq<u8>;

    fn into_key_and_hash(self, hasher: &XorHash) -> (r: KeyHashPair<'a>)
        ensures
            r.key()@ == self.key_view(),
    ;
}

impl<'a> Key<'a> for StationName<'a> {
    open spec fn key_view(&self) -> Seq<u8> {
        self@
    }

    fn into_key_and_hash(self, hasher: &XorHash) -> (r: KeyHashPair<'a>) {
        let hash = self.hash_with(hasher);
        KeyHashPair::new_unchecked(self, hash)
    }
}

impl<'a> Key<'a> for KeyHashPair<'a> {
    open spec fn key_view(&self) -> Seq<u8> {
        self.key()@
    }

    fn into_key_and_hash(self, hasher: &XorHash) -> (r: KeyHashPair<'a>) {
        self
    }
}

/// The bucket of a hash in a table of `mask + 1` buckets.
pub open spec fn bucket_of(hash: u64, mask: u64) -> int {
    (hash & mask) as int
}

pub proof fn lemma_bucket_in_range(hash: u64, mask: u64)
    ensures
        0 <= bucket_of(hash, mask) <= mask,
{
    assert(hash & mask <= mask) by (bit_vector);
}

/// `n` is 1, 2, 4, 8, ...
pub open spec fn is_power_of_two(n: nat) -> bool
    decreases n,
{
    if n == 1 {
        true
    } else if n == 0 || n % 2 == 1 {
        false
    } else {
        is_power_of_two(n / 2)
    }
}

/// A stored name and its running statistics.
struct EntryKV<'a> {
    key: StationName<'a>,
    value: StationSummary,
}

/// One bucket: a stored hash of zero marks it empty.
struct Entry<'a> {
    hash: u64,
    kv: Option<EntryKV<'a>>,
}

/// Map from station names to running statistics. A power-of-two array of
/// single-slot buckets, addressed by `hash & mask`, takes each name whose
/// bucket is free; a name whose bucket holds another goes to the overflow
/// store. Bucket 0 is reserved (its stored hash is 1), so a real hash that
/// lands there always overflows. No entry is ever removed.
pub struct SimpleHashMap<'a> {
    hasher: XorHash,
    table_mask: u64,
    table: Vec<Entry<'a>>,
    fallback: Vec<EntryKV<'a>>,
}

impl<'a> SimpleHashMap<'a> {
    /// Where `k` would sit among the buckets.
    pub closed spec fn bucket(&self, k: Seq<u8>) -> int {
        bucket_of(key_hash(k), self.table_mask)
    }

    pub closed spec fn primary_has(&self, k: Seq<u8>) -> bool {
        let e = self.table@[self.bucket(k)];
        e.kv is Some && e.kv->Some_0.key@ == k
    }

    pub closed spec fn fallback_index(&self, k: Seq<u8>) -> int {
        choose|i: int| 0 <= i < self.fallback@.len() && self.fallback@[i].key@ == k
    }

    pub closed spec fn fallback_has(&self, k: Seq<u8>) -> bool {
        exists|i: int| 0 <= i < self.fallback@.len() && self.fallback@[i].key@ == k
    }

    /// Number of buckets, the reserved one included.
    pub closed spec fn capacity(&self) -> nat {
        self.table@.len()
    }

    /// Number of names in the overflow store.
    pub closed spec fn overflow_len(&self) -> nat {
        self.fallback@.len()
    }

    pub closed spec fn wf(&self) -> bool {
        &&& self.table@.len() == self.table_mask + 1
        &&& self.table@[0].hash == 1
        &&& self.table@[0].kv is None
        &&& forall|i: int|
            1 <= i < self.table@.len() ==> ((#[trigger] self.table@[i]).hash == 0) == (
            self.table@[i].kv is None)
        &&& forall|i: int|
            1 <= i < self.table@.len() && (#[trigger] self.table@[i]).kv is Some ==> {
                let key = self.table@[i].kv->Some_0.key@;
                &&& self.table@[i].hash == key_hash(key)
                &&& bucket_of(key_hash(key), self.table_mask) == i
            }
        &&& forall|i: int, j: int|
            0 <= i < j < self.fallback@.len() ==> (#[trigger] self.fallback@[i]).key@
                != (#[trigger] self.fallback@[j]).key@
        &&& forall|i: int|
            0 <= i < self.fallback@.len() ==> {
                let key = (#[trigger] self.fallback@[i]).key@;
                let e = self.table@[bucket_of(key_hash(key), self.table_mask)];
                &&& e.hash != 0
                &&& e.kv is Some ==> e.kv->Some_0.key@ != key
            }
    }

    /// Each stored name with its statistics.
    pub closed spec fn view(&self) -> Map<Seq<u8>, Stats> {
        Map::new(
            |k: Seq<u8>| self.primary_has(k) || self.fallback_has(k),
            |k: Seq<u8>|
                if self.primary_has(k) {
                    self.table@[self.bucket(k)].kv->Some_0.value@
                } else {
                    self.fallback@[self.fallback_index(k)].value@
                },
        )
    }

    proof fn lemma_fallback_index(&self, k: Seq<u8>, i: int)
        requires
            self.wf(),
            0 <= i < self.fallback@.len(),
            self.fallback@[i].key@ == k,
        ensures
            self.fallback_has(k),
            self.fallback_index(k) == i,
            !self.primary_has(k),
    {
        let c = self.fallback_index(k);
        assert(0 <= c < self.fallback@.len() && self.fallback@[c].key@ == k);
        if c < i {
            assert(self.fallback@[c].key@ != self.fallback@[i].key@);
        } else if i < c {
            assert(self.fallback@[i].key@ != self.fallback@[c].key@);
        }
        lemma_bucket_in_range(key_hash(k), self.table_mask);
    }

    /// A table with room for `max_capacity * safety_factor` names in its
    /// buckets, rounded up to a power of two, and an empty overflow store.
    pub fn new(max_capacity: usize, safety_factor: usize) -> (r: Self)
        requires
            max_capacity * safety_factor <= usize::MAX / 2 + 1,
        ensures
            r.wf(),
            r@ == Map::<Seq<u8>, Stats>::empty(),
            is_power_of_two(r.capacity()),
            r.capacity() >= max_capacity * safety_factor,
            r.capacity() == 1 || r.capacity() < 2 * (max_capacity * safety_factor),
            r.overflow_len() == 0,
    {
        let wanted = max_capacity * safety_factor;
        let mut size: usize = 1;
        while size < wanted
            invariant
                wanted <= usize::MAX / 2 + 1,
                1 <= size,
                is_power_of_two(size as nat),
                size == 1 || size < 2 * wanted,
            decreases 2 * wanted - size,
        {
            assert(is_power_of_two((size * 2) as nat)) by {
                assert((size * 2) as nat / 2 == size);
            }
            size = size * 2;
        }
        let mut table: Vec<Entry<'a>> = Vec::new();
        table.push(Entry { hash: 1, kv: None });
        while table.len() < size
            invariant
                1 <= table@.len() <= size,
                table@[0].hash == 1,
                table@[0].kv is None,
                forall|i: int| 1 <= i < table@.len() ==> (#[trigger] table@[i]).hash == 0 && table@[i].kv is None,
            decreases size - table@.len(),
        {
            table.push(Entry { hash: 0, kv: None });
        }
        let r = SimpleHashMap {
            hasher: XorHash,
            table_mask: (size - 1) as u64,
            table,
            fallback: Vec::new(),
        };
        assert forall|k: Seq<u8>| !r.primary_has(k) && !r.fallback_has(k) by {
            lemma_bucket_in_range(key_hash(k), r.table_mask);
        }
        assert(r@ =~= Map::<Seq<u8>, Stats>::empty());
        r
    }

    /// The statistics of `key`, a fresh default entry first where the table
    /// lacks it. A name whose bucket holds another name, or whose bucket is
    /// the reserved one, goes to the overflow store.
    pub fn get_or_default<K: Key<'a>>(&mut self, key: K) -> (r: &mut StationSummary)
        requires
            old(self).wf(),
        ensures
            final(self).wf(),
            r@ == lookup(old(self)@, key.key_view()),
            final(self)@ == old(self)@.insert(key.key_view(), final(r)@),
            final(self).capacity() == old(self).capacity(),
    {
        let pair = key.into_key_and_hash(&self.hasher);
        let hash = pair.hash_value();
        let name = pair.name();
        let ghost k = name@;
        proof {
            lemma_bucket_in_range(hash, self.table_mask);
        }
        assert(self.table@.len() == self.table.len());
        let bucket = (hash & self.table_mask) as usize;
        assert(bucket as int == self.bucket(k));
        let hit = match &self.table[bucket].kv {
            Some(kv) => self.table[bucket].hash == hash && kv.key == name,
            None => false,
        };
        if hit {
            proof {
                self.lemma_set_primary_any(bucket as int);
            }
            return self.primary_value_mut(bucket);
        }
        if self.table[bucket].hash != 0 {
            return self.get_or_default_fallback(name);
        }
        let ghost old_self = *self;
        self.table.set(
            bucket,
            Entry { hash, kv: Some(EntryKV { key: name, value: StationSummary::default() }) },
        );
        proof {
            old_self.lemma_fill_bucket(*self, bucket as int, name);
            self.lemma_set_primary_any(bucket as int);
        }
        self.primary_value_mut(bucket)
    }

    /// The value held in occupied bucket `b`.
    fn primary_value_mut(&mut self, b: usize) -> (r: &mut StationSummary)
        requires
            b < old(self).table@.len(),
            old(self).table@[b as int].kv is Some,
        ensures
            *r == old(self).table@[b as int].kv->Some_0.value,
            old(self).set_value_of(*final(self), b as int, *final(r)),
    {
        let entry = &mut self.table[b];
        let kv = entry.kv.as_mut().unwrap();
        &mut kv.value
    }

    /// Whatever value ends up in an occupied bucket, the table stays well
    /// formed and maps that bucket's name to it.
    proof fn lemma_set_primary_any(self, b: int)
        requires
            self.wf(),
            1 <= b < self.table@.len(),
            self.table@[b].kv is Some,
        ensures
            forall|new: Self, v: StationSummary|
                #[trigger] self.set_value_of(new, b, v) ==> new.wf() && new@ == self@.insert(
                    self.table@[b].kv->Some_0.key@,
                    v@,
                ),
    {
        assert forall|new: Self, v: StationSummary| #[trigger]
            self.set_value_of(new, b, v) implies new.wf() && new@ == self@.insert(
            self.table@[b].kv->Some_0.key@,
            v@,
        ) by {
            self.lemma_set_primary(new, b, v);
        }
    }

    /// `new` is `self` with the value in occupied bucket `b` set to `v`.
    spec fn set_value_of(self, new: Self, b: int, v: StationSummary) -> bool {
        &&& new.table_mask == self.table_mask
        &&& new.fallback@ == self.fallback@
        &&& new.table@ == self.table@.update(
            b,
            Entry {
                hash: self.table@[b].hash,
                kv: Some(EntryKV { key: self.table@[b].kv->Some_0.key, value: v }),
            },
        )
    }

    proof fn lemma_fill_bucket(self, new: Self, b: int, key: StationName<'a>)
        requires
            self.wf(),
            b == self.bucket(key@),
            self.table@[b].hash == 0,
            new.table_mask == self.table_mask,
            new.fallback@ == self.fallback@,
            new.table@ == self.table@.update(b, Entry {
                hash: key_hash(key@),
                kv: Some(EntryKV { key, value: StationSummary { min: i16::MAX, max: i16::MIN, sum: 0, count: 0 } }),
            }),
        ensures
            new.wf(),
            new@ == self@.insert(key@, empty_stats()),
    {
        let mask = self.table_mask;
        lemma_bucket_in_range(key_hash(key@), mask);
        assert(0u64 & mask == 0) by (bit_vector);
        assert(b != 0);
        assert forall|i: int| 0 <= i < self.fallback@.len() implies ({
            let fk = (#[trigger] new.fallback@[i]).key@;
            let e = new.table@[bucket_of(key_hash(fk), new.table_mask)];
            &&& e.hash != 0
            &&& e.kv is Some ==> e.kv->Some_0.key@ != fk
        }) by {
            let fk = self.fallback@[i].key@;
            lemma_bucket_in_range(key_hash(fk), mask);
            assert(bucket_of(key_hash(fk), mask) != b);
        }
        assert(new.wf());
        assert(!self.primary_has(key@));
        if self.fallback_has(key@) {
            let i = choose|i: int| 0 <= i < self.fallback@.len() && self.fallback@[i].key@ == key@;
            assert(self.table@[bucket_of(key_hash(self.fallback@[i].key@), mask)].hash != 0);
        }
        assert forall|k: Seq<u8>| k != key@ implies new.primary_has(k) == self.primary_has(k) && (
        self.primary_has(k) ==> new.table@[new.bucket(k)] == self.table@[self.bucket(k)]) by {
            lemma_bucket_in_range(key_hash(k), mask);
        }
        lemma_bucket_in_range(key_hash(key@), mask);
        assert(new@ =~= self@.insert(key@, empty_stats()));
    }

    proof fn lemma_set_primary(self, new: Self, b: int, v: StationSummary)
        requires
            self.wf(),
            1 <= b < self.table@.len(),
            self.table@[b].kv is Some,
            new.table_mask == self.table_mask,
            new.fallback@ == self.fallback@,
            new.table@ == self.table@.update(b, Entry {
                hash: self.table@[b].hash,
                kv: Some(EntryKV { key: self.table@[b].kv->Some_0.key, value: v }),
            }),
        ensures
            new.wf(),
            new@ == self@.insert(self.table@[b].kv->Some_0.key@, v@),
    {
        let mask = self.table_mask;
        let kb = self.table@[b].kv->Some_0.key@;
        assert forall|i: int| 0 <= i < self.fallback@.len() implies ({
            let fk = (#[trigger] new.fallback@[i]).key@;
            let e = new.table@[bucket_of(key_hash(fk), new.table_mask)];
            &&& e.hash != 0
            &&& e.kv is Some ==> e.kv->Some_0.key@ != fk
        }) by {
            let fk = self.fallback@[i].key@;
            lemma_bucket_in_range(key_hash(fk), mask);
        }
        assert(new.wf());
        assert forall|k: Seq<u8>| #![auto] new.primary_has(k) == self.primary_has(k) && (k != kb
            && self.primary_has(k) ==> new.table@[new.bucket(k)] == self.table@[self.bucket(
            k,
        )]) by {
            lemma_bucket_in_range(key_hash(k), mask);
        }
        lemma_bucket_in_range(key_hash(kb), mask);
        assert(new@ =~= self@.insert(kb, v@));
    }

    /// A fresh hasher state, as the table hashes names.
    pub fn hasher(&self) -> (r: XorHasher)
        ensures
            r.state() == HASH_SEED,
    {
        self.hasher.build_hasher()
    }

    /// How many names went to the overflow store.
    pub fn fallback_size(&self) -> (r: usize)
        ensures
            r == self.overflow_len(),
    {
        self.fallback.len()
    }

    /// Every stored name with its statistics, each name once: those in the
    /// buckets in bucket order, then those in the overflow store.
    pub fn iter(&self) -> (r: Vec<(StationName<'a>, StationSummary)>)
        requires
            self.wf(),
        ensures
            forall|i: int|
                0 <= i < r@.len() ==> self@.contains_key((#[trigger] r@[i]).0@) && self@[r@[i].0@]
                    == r@[i].1@,
            forall|k: Seq<u8>|
                self@.contains_key(k) ==> exists|i: int| 0 <= i < r@.len() && (#[trigger] r@[i]).0@ == k,
            forall|i: int, j: int|
                0 <= i < j < r@.len() ==> (#[trigger] r@[i]).0@ != (#[trigger] r@[j]).0@,
    {
        let mut r: Vec<(StationName<'a>, StationSummary)> = Vec::new();
        let n = self.table.len();
        let mut b: usize = 1;
        while b < n
            invariant
                self.wf(),
                n == self.table@.len(),
                1 <= b <= n,
                forall|i: int|
                    0 <= i < r@.len() ==> self.primary_has((#[trigger] r@[i]).0@) && 1 <= self.bucket(r@[i].0@) < b
                        && self.table@[self.bucket(r@[i].0@)].kv->Some_0.value == r@[i].1,
                forall|c: int|
                    1 <= c < b && (#[trigger] self.table@[c]).kv is Some ==> exists|i: int|
                        0 <= i < r@.len() && (#[trigger] r@[i]).0@ == self.table@[c].kv->Some_0.key@,
                forall|i: int, j: int|
                    0 <= i < j < r@.len() ==> (#[trigger] r@[i]).0@ != (#[trigger] r@[j]).0@,
            decreases n - b,
        {
            let ghost old_r = r@;
            match &self.table[b].kv {
                Some(kv) => {
                    proof {
                        lemma_bucket_in_range(key_hash(kv.key@), self.table_mask);
                    }
                    r.push((kv.key, kv.value));
                },
                None => {},
            }
            assert forall|c: int|
                1 <= c < b + 1 && (#[trigger] self.table@[c]).kv is Some implies exists|i: int|
                    0 <= i < r@.len() && (#[trigger] r@[i]).0@ == self.table@[c].kv->Some_0.key@ by {
                if c < b {
                    let i = choose|i: int|
                        0 <= i < old_r.len() && (#[trigger] old_r[i]).0@ == self.table@[c].kv->Some_0.key@;
                    assert(r@[i] == old_r[i]);
                } else {
                    assert(r@[r@.len() - 1].0@ == self.table@[c].kv->Some_0.key@);
                }
            }
            b = b + 1;
        }
        let np = r.len();
        let m = self.fallback.len();
        let mut f: usize = 0;
        while f < m
            invariant
                self.wf(),
                n == self.table@.len(),
                m == self.fallback@.len(),
                f <= m,
                np <= r@.len(),
                r@.len() == np + f,
                forall|i: int|
                    0 <= i < np ==> self.primary_has((#[trigger] r@[i]).0@)
                        && self.table@[self.bucket(r@[i].0@)].kv->Some_0.value == r@[i].1,
                forall|i: int|
                    np <= i < r@.len() ==> (#[trigger] r@[i]) == (self.fallback@[i - np].key, self.fallback@[i - np].value),
                forall|c: int|
                    1 <= c < n && (#[trigger] self.table@[c]).kv is Some ==> exists|i: int|
                        0 <= i < r@.len() && (#[trigger] r@[i]).0@ == self.table@[c].kv->Some_0.key@,
                forall|i: int, j: int|
                    0 <= i < j < np ==> (#[trigger] r@[i]).0@ != (#[trigger] r@[j]).0@,
            decreases m - f,
        {
            let ghost old_r = r@;
            r.push((self.fallback[f].key, self.fallback[f].value));
            assert forall|c: int|
                1 <= c < n && (#[trigger] self.table@[c]).kv is Some implies exists|i: int|
                    0 <= i < r@.len() && (#[trigger] r@[i]).0@ == self.table@[c].kv->Some_0.key@ by {
                let i = choose|i: int|
                    0 <= i < old_r.len() && (#[trigger] old_r[i]).0@ == self.table@[c].kv->Some_0.key@;
                assert(r@[i] == old_r[i]);
            }
            f = f + 1;
        }
        assert forall|i: int|
            0 <= i < r@.len() implies self@.contains_key((#[trigger] r@[i]).0@) && self@[r@[i].0@]
                == r@[i].1@ by {
            if i >= np {
                self.lemma_fallback_index(r@[i].0@, i - np);
            }
        }
        assert forall|k: Seq<u8>|
            self@.contains_key(k) implies exists|i: int| 0 <= i < r@.len() && (#[trigger] r@[i]).0@ == k by {
            if self.primary_has(k) {
                lemma_bucket_in_range(key_hash(k), self.table_mask);
                assert(self.table@[self.bucket(k)].kv is Some);
            } else {
                let j = self.fallback_index(k);
                assert(r@[np + j].0@ == k);
            }
        }
        assert forall|i: int, j: int|
            0 <= i < j < r@.len() implies (#[trigger] r@[i]).0@ != (#[trigger] r@[j]).0@ by {
            if j >= np {
                self.lemma_fallback_index(r@[j].0@, j - np);
                if i >= np {
                    assert(self.fallback@[i - np].key@ != self.fallback@[j - np].key@);
                }
            }
        }
        r
    }

    /// The statistics of `key`, where the table holds it.
    pub fn get(&self, key: KeyHashPair<'a>) -> (r: Option<StationSummary>)
        requires
            self.wf(),
        ensures
            (r is Some) == self@.contains_key(key.key()@),
            r is Some ==> r->Some_0@ == self@[key.key()@],
    {
        let hash = key.hash_value();
        let name = key.name();
        proof {
            lemma_bucket_in_range(hash, self.table_mask);
        }
        assert(self.table@.len() == self.table.len());
        let bucket = (hash & self.table_mask) as usize;
        assert(bucket as int == self.bucket(name@));
        match &self.table[bucket].kv {
            Some(kv) => {
                if kv.key == name {
                    return Some(kv.value);
                }
            },
            None => {},
        }
        let n = self.fallback.len();
        let mut i: usize = 0;
        while i < n
            invariant
                self.wf(),
                n == self.fallback@.len(),
                i <= n,
                name@ == key.key()@,
                !self.primary_has(name@),
                forall|j: int| 0 <= j < i ==> (#[trigger] self.fallback@[j]).key@ != name@,
            decreases n - i,
        {
            if self.fallback[i].key == name {
                proof {
                    self.lemma_fallback_index(name@, i as int);
                }
                return Some(self.fallback[i].value);
            }
            i = i + 1;
        }
        None
    }

    /// Folds another table into this one, key by key: minimum of minima,
    /// maximum of maxima, sums and counts added. Where some key's combined
    /// count or sum would overflow, nothing changes and the result is
    /// `false`.
    pub fn merge_from(&mut self, other: &SimpleHashMap<'a>) -> (ok: bool)
        requires
            old(self).wf(),
            other.wf(),
        ensures
            final(self).wf(),
            ok == forall|k: Seq<u8>|
                other@.contains_key(k) ==> stats_fit(
                    #[trigger] stats_combine(lookup(old(self)@, k), other@[k]),
                ),
            ok ==> final(self)@ == merge_stats(old(self)@, other@),
            !ok ==> final(self)@ == old(self)@,
    {
        let entries = other.iter();
        let n = entries.len();
        let mut i: usize = 0;
        while i < n
            invariant
                self.wf(),
                n == entries@.len(),
                i <= n,
                forall|j: int|
                    0 <= j < n ==> other@.contains_key((#[trigger] entries@[j]).0@) && other@[entries@[j].0@]
                        == entries@[j].1@,
                forall|k: Seq<u8>|
                    other@.contains_key(k) ==> exists|j: int| 0 <= j < n && (#[trigger] entries@[j]).0@ == k,
                forall|j: int|
                    0 <= j < i ==> stats_fit(
                        stats_combine(lookup(self@, (#[trigger] entries@[j]).0@), entries@[j].1@),
                    ),
            decreases n - i,
        {
            let pair = entries[i].0.into_key_and_hash(&self.hasher);
            match self.get(pair) {
                Some(cur) => {
                    if !cur.can_merge(&entries[i].1) {
                        assert(other@.contains_key(entries@[i as int].0@));
                        assert(!stats_fit(stats_combine(lookup(self@, entries@[i as int].0@), other@[entries@[i as int].0@])));
                        return false;
                    }
                },
                None => {},
            }
            i = i + 1;
        }
        assert forall|k: Seq<u8>|
            other@.contains_key(k) implies stats_fit(
            #[trigger] stats_combine(lookup(self@, k), other@[k]),
        ) by {
            let j = choose|j: int| 0 <= j < entries@.len() && (#[trigger] entries@[j]).0@ == k;
            assert(stats_fit(stats_combine(lookup(self@, entries@[j].0@), entries@[j].1@)));
        }
        let ghost start = self@;
        let mut i: usize = 0;
        while i < n
            invariant
                self.wf(),
                n == entries@.len(),
                i <= n,
                forall|j: int|
                    0 <= j < n ==> other@.contains_key((#[trigger] entries@[j]).0@) && other@[entries@[j].0@]
                        == entries@[j].1@,
                forall|j: int, l: int|
                    0 <= j < l < n ==> (#[trigger] entries@[j]).0@ != (#[trigger] entries@[l]).0@,
                forall|k: Seq<u8>|
                    other@.contains_key(k) ==> stats_fit(
                        #[trigger] stats_combine(lookup(start, k), other@[k]),
                    ),
                forall|k: Seq<u8>|
                    #![trigger self@.contains_key(k)]
                    self@.contains_key(k) == (start.contains_key(k) || exists|j: int|
                        0 <= j < i && (#[trigger] entries@[j]).0@ == k),
                forall|k: Seq<u8>|
                    self@.contains_key(k) ==> #[trigger] self@[k] == if exists|j: int|
                        0 <= j < i && (#[trigger] entries@[j]).0@ == k {
                        stats_combine(lookup(start, k), other@[k])
                    } else {
                        start[k]
                    },
            decreases n - i,
        {
            let ghost k = entries@[i as int].0@;
            assert forall|j: int| 0 <= j < i implies (#[trigger] entries@[j]).0@ != k by {}
            assert(lookup(self@, k) == lookup(start, k));
            let s = self.get_or_default(entries[i].0);
            s.merge(&entries[i].1);
            i = i + 1;
            proof {
                assert forall|k2: Seq<u8>| #![trigger self@.contains_key(k2)]
                    self@.contains_key(k2) == (start.contains_key(k2) || exists|j: int|
                        0 <= j < i && (#[trigger] entries@[j]).0@ == k2) by {
                    if k2 == k {
                        assert(entries@[i - 1].0@ == k2);
                    }
                }
                assert forall|k2: Seq<u8>| self@.contains_key(k2) implies #[trigger] self@[k2] == if exists|j: int|
                        0 <= j < i && (#[trigger] entries@[j]).0@ == k2 {
                        stats_combine(lookup(start, k2), other@[k2])
                    } else {
                        start[k2]
                    } by {
                    if k2 == k {
                        assert(entries@[i - 1].0@ == k2);
                    }
                }
            }
        }
        proof {
            assert forall|k: Seq<u8>| #![auto] other@.contains_key(k) implies exists|j: int|
                0 <= j < n && (#[trigger] entries@[j]).0@ == k by {}
            assert(self@ =~= merge_stats(start, other@));
        }
        true
    }

    /// The overflow store's get-or-insert.
    fn get_or_default_fallback(&mut self, key: StationName<'a>) -> (r: &mut StationSummary)
        requires
            old(self).wf(),
            old(self).table@[old(self).bucket(key@)].hash != 0,
            old(self).table@[old(self).bucket(key@)].kv is Some ==> old(self).table@[old(
                self,
            ).bucket(key@)].kv->Some_0.key@ != key@,
        ensures
            final(self).wf(),
            r@ == lookup(old(self)@, key@),
            final(self)@ == old(self)@.insert(key@, final(r)@),
            final(self).capacity() == old(self).capacity(),
    {
        let n = self.fallback.len();
        let mut i: usize = 0;
        while i < n
            invariant
                *self == *old(self),
                self.wf(),
                n == self.fallback@.len(),
                i <= n,
                forall|j: int| 0 <= j < i ==> (#[trigger] self.fallback@[j]).key@ != key@,
            decreases n - i,
        {
            if self.fallback[i].key == key {
                proof {
                    self.lemma_fallback_index(key@, i as int);
                    self.lemma_set_fallback_any(i as int);
                }
                return self.fallback_value_mut(i);
            }
            i = i + 1;
        }
        let ghost old_self = *self;
        self.fallback.push(EntryKV { key, value: StationSummary::default() });
        proof {
            old_self.lemma_push_fallback(*self, key);
            self.lemma_fallback_index(key@, n as int);
            self.lemma_set_fallback_any(n as int);
        }
        self.fallback_value_mut(n)
    }

    /// The value held at index `i` of the overflow store.
    fn fallback_value_mut(&mut self, i: usize) -> (r: &mut StationSummary)
        requires
            i < old(self).fallback@.len(),
        ensures
            *r == old(self).fallback@[i as int].value,
            old(self).set_fallback_value_of(*final(self), i as int, *final(r)),
    {
        let kv = &mut self.fallback[i];
        &mut kv.value
    }

    /// `new` is `self` with the value at index `i` of the overflow store set
    /// to `v`.
    spec fn set_fallback_value_of(self, new: Self, i: int, v: StationSummary) -> bool {
        &&& new.table_mask == self.table_mask
        &&& new.table@ == self.table@
        &&& new.fallback@ == self.fallback@.update(
            i,
            EntryKV { key: self.fallback@[i].key, value: v },
        )
    }

    proof fn lemma_set_fallback_any(self, i: int)
        requires
            self.wf(),
            0 <= i < self.fallback@.len(),
        ensures
            forall|new: Self, v: StationSummary|
                #[trigger] self.set_fallback_value_of(new, i, v) ==> new.wf() && new@
                    == self@.insert(self.fallback@[i].key@, v@),
    {
        assert forall|new: Self, v: StationSummary| #[trigger]
            self.set_fallback_value_of(new, i, v) implies new.wf() && new@ == self@.insert(
            self.fallback@[i].key@,
            v@,
        ) by {
            let k = self.fallback@[i].key@;
            assert(new.wf());
            new.lemma_fallback_index(k, i);
            self.lemma_fallback_index(k, i);
            assert forall|k2: Seq<u8>| k2 != k && self.fallback_has(k2) implies new.fallback_has(
                k2,
            ) && new.fallback_index(k2) == self.fallback_index(k2) by {
                let j = self.fallback_index(k2);
                self.lemma_fallback_index(k2, j);
                new.lemma_fallback_index(k2, j);
            }
            assert forall|k2: Seq<u8>| new.fallback_has(k2) implies self.fallback_has(k2) by {
                let j = choose|j: int| 0 <= j < new.fallback@.len() && new.fallback@[j].key@ == k2;
                assert(self.fallback@[j].key@ == k2);
            }
            assert(new@ =~= self@.insert(k, v@));
        }
    }

    proof fn lemma_push_fallback(self, new: Self, key: StationName<'a>)
        requires
            self.wf(),
            self.table@[self.bucket(key@)].hash != 0,
            self.table@[self.bucket(key@)].kv is Some ==> self.table@[self.bucket(
                key@,
            )].kv->Some_0.key@ != key@,
            forall|j: int| 0 <= j < self.fallback@.len() ==> (#[trigger] self.fallback@[j]).key@ != key@,
            new.table_mask == self.table_mask,
            new.table@ == self.table@,
            new.fallback@ == self.fallback@.push(
                EntryKV {
                    key,
                    value: StationSummary { min: i16::MAX, max: i16::MIN, sum: 0, count: 0 },
                },
            ),
        ensures
            new.wf(),
            new@ == self@.insert(key@, empty_stats()),
    {
        let n = self.fallback@.len() as int;
        assert(new.fallback@[n].key@ == key@);
        assert(new.wf());
        new.lemma_fallback_index(key@, n);
        assert(!self.fallback_has(key@));
        assert forall|k2: Seq<u8>| k2 != key@ && self.fallback_has(k2) implies new.fallback_has(k2)
            && new.fallback_index(k2) == self.fallback_index(k2) by {
            let j = self.fallback_index(k2);
            self.lemma_fallback_index(k2, j);
            assert(new.fallback@[j] == self.fallback@[j]);
            new.lemma_fallback_index(k2, j);
        }
        assert forall|k2: Seq<u8>| k2 != key@ && new.fallback_has(k2) implies self.fallback_has(
            k2,
        ) by {
            let j = choose|j: int| 0 <= j < new.fallback@.len() && new.fallback@[j].key@ == k2;
            assert(j < n);
            assert(self.fallback@[j].key@ == k2);
        }
        assert(new@ =~= self@.insert(key@, empty_stats()));
    }
}

} // verus!
