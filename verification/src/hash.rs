//! A chained-bucket hash map with `u64` keys and doubling resize, hashed by
//! a simple multiply-and-add accumulator over the key's bytes.

use vstd::prelude::*;

verus! {

/// One accumulator step: multiply the running state by 31 and add the byte,
/// modulo 2^64.
pub open spec fn hash_step(state: u64, byte: u8) -> u64 {
    vstd::wrapping::u64_specs::wrapping_add(
        vstd::wrapping::u64_specs::wrapping_mul(state, 31),
        byte as u64,
    )
}

/// The accumulator state after folding `bytes[i..]` into `state`.
pub open spec fn hash_from(state: u64, bytes: Seq<u8>, i: int) -> u64
    decreases bytes.len() - i,
{
    if i < 0 || i >= bytes.len() {
        state
    } else {
        hash_from(hash_step(state, bytes[i]), bytes, i + 1)
    }
}

/// A streaming hasher: state is folded over the written bytes one at a time.
pub struct SimpleHasher {
    state: u64,
    random: u64,
}

impl SimpleHasher {
    /// The running accumulator.
    pub closed spec fn spec_state(self) -> u64 {
        self.state
    }

    /// The seed this hasher was created with; kept alongside the state.
    pub closed spec fn spec_random(self) -> u64 {
        self.random
    }

    /// Creates a hasher with a zero accumulator.
    pub fn new(random: u64) -> (r: Self)
        ensures
            r.spec_state() == 0,
            r.spec_random() == random,
    {
        SimpleHasher { state: 0, random }
    }

    /// Returns the current accumulator.
    pub fn finish(&self) -> (r: u64)
        ensures
            r == self.spec_state(),
    {
        self.state
    }

    /// Folds `bytes` into the accumulator.
    pub fn write(&mut self, bytes: &[u8])
        ensures
            final(self).spec_state() == hash_from(old(self).spec_state(), bytes@, 0),
            final(self).spec_random() == old(self).spec_random(),
    {
        let n = bytes.len();
        let mut i: usize = 0;
        while i < n
            invariant
                i <= n,
                n == bytes@.len(),
                hash_from(self.spec_state(), bytes@, i as int) == hash_from(
                    old(self).spec_state(),
                    bytes@,
                    0,
                ),
                self.spec_random() == old(self).spec_random(),
            decreases n - i,
        {
            self.state = self.state.wrapping_mul(31).wrapping_add(bytes[i] as u64);
            i = i + 1;
        }
    }
}

/// The key's eight bytes, least significant first.
pub open spec fn key_bytes(k: u64) -> Seq<u8> {
    seq![
        (k % 0x100) as u8,
        ((k / 0x100) % 0x100) as u8,
        ((k / 0x10000) % 0x100) as u8,
        ((k / 0x1000000) % 0x100) as u8,
        ((k / 0x100000000) % 0x100) as u8,
        ((k / 0x10000000000) % 0x100) as u8,
        ((k / 0x1000000000000) % 0x100) as u8,
        ((k / 0x100000000000000) % 0x100) as u8,
    ]
}

/// The hash a key is distributed by: the accumulator folded over the key's
/// bytes starting from zero. The seed does not enter the accumulator.
pub open spec fn spec_hash_key(k: u64) -> u64 {
    hash_from(0, key_bytes(k), 0)
}

/// Computes `spec_hash_key` with a `SimpleHasher` seeded with `seed`.
fn hash_key(seed: u64, key: u64) -> (r: u64)
    ensures
        r == spec_hash_key(key),
{
    let mut bytes: Vec<u8> = Vec::new();
    bytes.push((key % 0x100) as u8);
    bytes.push(((key / 0x100) % 0x100) as u8);
    bytes.push(((key / 0x10000) % 0x100) as u8);
    bytes.push(((key / 0x1000000) % 0x100) as u8);
    bytes.push(((key / 0x100000000) % 0x100) as u8);
    bytes.push(((key / 0x10000000000) % 0x100) as u8);
    bytes.push(((key / 0x1000000000000) % 0x100) as u8);
    bytes.push(((key / 0x100000000000000) % 0x100) as u8);
    proof {
        assert(bytes@ =~= key_bytes(key));
    }
    let mut hasher = SimpleHasher::new(seed);
    hasher.write(bytes.as_slice());
    hasher.finish()
}

/// The bucket among `n` that a key belongs to.
pub open spec fn spec_bucket_index(k: u64, n: int) -> int {
    spec_hash_key(k) as int % n
}

/// A bucket table as a sequence of sequences of key-value pairs.
pub open spec fn table_view<V>(t: Seq<Vec<(u64, V)>>) -> Seq<Seq<(u64, V)>> {
    t.map_values(|b: Vec<(u64, V)>| b@)
}

/// Position `(i, j)` of `bs` holds the pair `(k, v)`.
pub open spec fn pair_at<V>(bs: Seq<Seq<(u64, V)>>, i: int, j: int, k: u64, v: V) -> bool {
    0 <= i < bs.len() && 0 <= j < bs[i].len() && bs[i][j] == (k, v)
}

/// Some position of `bs` holds the pair `(k, v)`.
pub open spec fn pair_in<V>(bs: Seq<Seq<(u64, V)>>, k: u64, v: V) -> bool {
    exists|i: int, j: int| pair_at(bs, i, j, k, v)
}

/// Some position of `bs` holds key `k`.
pub open spec fn buckets_have_key<V>(bs: Seq<Seq<(u64, V)>>, k: u64) -> bool {
    exists|v: V| pair_in(bs, k, v)
}

/// The value stored under key `k` in `bs`.
pub open spec fn buckets_value_of<V>(bs: Seq<Seq<(u64, V)>>, k: u64) -> V {
    choose|v: V| pair_in(bs, k, v)
}

/// Each key occurs in at most one position of the table.
pub open spec fn buckets_keys_unique<V>(bs: Seq<Seq<(u64, V)>>) -> bool {
    forall|i1: int, j1: int, i2: int, j2: int|
        #![trigger bs[i1][j1], bs[i2][j2]]
        (0 <= i1 < bs.len() && 0 <= j1 < bs[i1].len() && 0 <= i2 < bs.len() && 0 <= j2
            < bs[i2].len() && bs[i1][j1].0 == bs[i2][j2].0) ==> (i1 == i2 && j1 == j2)
}

/// Every pair of the table sits in the bucket its key hashes to.
pub open spec fn buckets_placed<V>(bs: Seq<Seq<(u64, V)>>) -> bool {
    forall|i: int, j: int|
        #![trigger bs[i][j]]
        (0 <= i < bs.len() && 0 <= j < bs[i].len()) ==> spec_bucket_index(
            bs[i][j].0,
            bs.len() as int,
        ) == i
}

/// The map a bucket table represents.
pub open spec fn buckets_as_map<V>(bs: Seq<Seq<(u64, V)>>) -> Map<u64, V> {
    Map::new(|k: u64| buckets_have_key(bs, k), |k: u64| buckets_value_of(bs, k))
}

/// In a table without repeated keys, a key determines its value.
proof fn lemma_value_unique<V>(bs: Seq<Seq<(u64, V)>>, k: u64, v1: V, v2: V)
    requires
        buckets_keys_unique(bs),
        pair_in(bs, k, v1),
        pair_in(bs, k, v2),
    ensures
        v1 == v2,
{
    let (i1, j1) = choose|i1: int, j1: int| pair_at(bs, i1, j1, k, v1);
    let (i2, j2) = choose|i2: int, j2: int| pair_at(bs, i2, j2, k, v2);
    assert(bs[i1][j1].0 == bs[i2][j2].0);
}

/// Two tables without repeated keys that hold the same pairs represent the
/// same map.
proof fn lemma_same_pairs_same_map<V>(bs1: Seq<Seq<(u64, V)>>, bs2: Seq<Seq<(u64, V)>>)
    requires
        buckets_keys_unique(bs1),
        buckets_keys_unique(bs2),
        forall|k: u64, v: V| pair_in(bs1, k, v) <==> pair_in(bs2, k, v),
    ensures
        buckets_as_map(bs1) == buckets_as_map(bs2),
{
    assert forall|k: u64| buckets_have_key(bs1, k) == buckets_have_key(bs2, k) by {
        if buckets_have_key(bs1, k) {
            let v = choose|v: V| pair_in(bs1, k, v);
            assert(pair_in(bs2, k, v));
        }
        if buckets_have_key(bs2, k) {
            let v = choose|v: V| pair_in(bs2, k, v);
            assert(pair_in(bs1, k, v));
        }
    }
    assert forall|k: u64| buckets_have_key(bs1, k) implies buckets_value_of(bs1, k)
        == buckets_value_of(bs2, k) by {
        let v1 = choose|v: V| pair_in(bs1, k, v);
        assert(pair_in(bs2, k, v1));
        let v2 = choose|v: V| pair_in(bs2, k, v);
        lemma_value_unique(bs2, k, v1, v2);
    }
    assert(buckets_as_map(bs1) =~= buckets_as_map(bs2));
}

/// A table that agrees with another on every key but `key`, and holds
/// `(key, value)`, represents the other's map with `value` inserted.
proof fn lemma_insert_pair_map<V>(bs1: Seq<Seq<(u64, V)>>, bs2: Seq<Seq<(u64, V)>>, key: u64, value: V)
    requires
        buckets_keys_unique(bs1),
        buckets_keys_unique(bs2),
        forall|k: u64, v: V| k != key ==> (pair_in(bs1, k, v) <==> pair_in(bs2, k, v)),
        pair_in(bs2, key, value),
    ensures
        buckets_as_map(bs2) == buckets_as_map(bs1).insert(key, value),
{
    assert forall|k: u64| k != key implies buckets_have_key(bs1, k) == buckets_have_key(bs2, k) by {
        if buckets_have_key(bs1, k) {
            let v = choose|v: V| pair_in(bs1, k, v);
            assert(pair_in(bs2, k, v));
        }
        if buckets_have_key(bs2, k) {
            let v = choose|v: V| pair_in(bs2, k, v);
            assert(pair_in(bs1, k, v));
        }
    }
    assert forall|k: u64| k != key && buckets_have_key(bs1, k) implies buckets_value_of(bs1, k)
        == buckets_value_of(bs2, k) by {
        let v1 = choose|v: V| pair_in(bs1, k, v);
        assert(pair_in(bs2, k, v1));
        let v2 = choose|v: V| pair_in(bs2, k, v);
        lemma_value_unique(bs2, k, v1, v2);
    }
    assert(buckets_have_key(bs2, key));
    lemma_value_unique(bs2, key, buckets_value_of(bs2, key), value);
    assert(buckets_as_map(bs2) =~= buckets_as_map(bs1).insert(key, value));
}

/// Dropping a table's last bucket splits its pairs into the shorter table's
/// and the dropped bucket's.
proof fn lemma_table_pop<V>(bs_pre: Seq<Seq<(u64, V)>>, bs: Seq<Seq<(u64, V)>>, b: Seq<(u64, V)>)
    requires
        bs_pre.len() > 0,
        bs == bs_pre.subrange(0, bs_pre.len() - 1),
        b == bs_pre[bs_pre.len() - 1],
    ensures
        forall|k: u64, v: V|
            #![trigger pair_in(bs_pre, k, v)]
            #![trigger pair_in(bs, k, v)]
            #![trigger bucket_pair_in(b, k, v)]
            pair_in(bs_pre, k, v) == (pair_in(bs, k, v) || bucket_pair_in(b, k, v)),
{
    assert forall|k: u64, v: V|
        pair_in(bs_pre, k, v) == (pair_in(bs, k, v) || bucket_pair_in(b, k, v)) by {
        if pair_in(bs_pre, k, v) {
            let (i, j) = choose|i: int, j: int| pair_at(bs_pre, i, j, k, v);
            if i < bs.len() {
                assert(pair_at(bs, i, j, k, v));
            } else {
                assert(b[j] == (k, v));
            }
        }
        if pair_in(bs, k, v) {
            let (i, j) = choose|i: int, j: int| pair_at(bs, i, j, k, v);
            assert(pair_at(bs_pre, i, j, k, v));
        }
        if bucket_pair_in(b, k, v) {
            let j = choose|j: int| 0 <= j < b.len() && b[j] == (k, v);
            assert(pair_at(bs_pre, bs_pre.len() - 1, j, k, v));
        }
    }
}

/// Dropping a bucket's last pair splits its pairs into the shorter bucket's
/// and the dropped pair.
proof fn lemma_bucket_pop<V>(b_pre: Seq<(u64, V)>, b: Seq<(u64, V)>, k: u64, v: V)
    requires
        b_pre.len() > 0,
        b == b_pre.subrange(0, b_pre.len() - 1),
        b_pre[b_pre.len() - 1] == (k, v),
    ensures
        forall|k2: u64, v2: V|
            #![trigger bucket_pair_in(b_pre, k2, v2)]
            #![trigger bucket_pair_in(b, k2, v2)]
            bucket_pair_in(b_pre, k2, v2) == (bucket_pair_in(b, k2, v2) || (k2 == k && v2 == v)),
{
    assert forall|k2: u64, v2: V|
        bucket_pair_in(b_pre, k2, v2) == (bucket_pair_in(b, k2, v2) || (k2 == k && v2 == v)) by {
        if bucket_pair_in(b_pre, k2, v2) {
            let j = choose|j: int| 0 <= j < b_pre.len() && b_pre[j] == (k2, v2);
            if j < b.len() {
                assert(b[j] == (k2, v2));
            }
        }
        if bucket_pair_in(b, k2, v2) {
            let j = choose|j: int| 0 <= j < b.len() && b[j] == (k2, v2);
            assert(b_pre[j] == (k2, v2));
        }
        if k2 == k && v2 == v {
            assert(b_pre[b_pre.len() - 1] == (k2, v2));
        }
    }
}

/// Appending a pair to one bucket adds exactly that pair to the table.
proof fn lemma_table_push<V>(
    bs_pre: Seq<Seq<(u64, V)>>,
    bs: Seq<Seq<(u64, V)>>,
    idx: int,
    k: u64,
    v: V,
)
    requires
        0 <= idx < bs_pre.len(),
        bs.len() == bs_pre.len(),
        bs[idx] == bs_pre[idx].push((k, v)),
        forall|i: int| 0 <= i < bs_pre.len() && i != idx ==> bs[i] == bs_pre[i],
    ensures
        forall|k2: u64, v2: V|
            #![trigger pair_in(bs_pre, k2, v2)]
            #![trigger pair_in(bs, k2, v2)]
            pair_in(bs, k2, v2) == (pair_in(bs_pre, k2, v2) || (k2 == k && v2 == v)),
{
    let jn = bs[idx].len() - 1;
    assert forall|k2: u64, v2: V|
        pair_in(bs, k2, v2) == (pair_in(bs_pre, k2, v2) || (k2 == k && v2 == v)) by {
        if pair_in(bs_pre, k2, v2) {
            let (i, j) = choose|i: int, j: int| pair_at(bs_pre, i, j, k2, v2);
            assert(pair_at(bs, i, j, k2, v2));
        }
        if k2 == k && v2 == v {
            assert(pair_at(bs, idx, jn, k2, v2));
        }
        if pair_in(bs, k2, v2) {
            let (i, j) = choose|i: int, j: int| pair_at(bs, i, j, k2, v2);
            if !(i == idx && j == jn) {
                assert(pair_at(bs_pre, i, j, k2, v2));
            }
        }
    }
}

/// Appending a pair whose key is new keeps the table's keys unique.
proof fn lemma_table_push_unique<V>(
    bs_pre: Seq<Seq<(u64, V)>>,
    bs: Seq<Seq<(u64, V)>>,
    idx: int,
    k: u64,
    v: V,
)
    requires
        0 <= idx < bs_pre.len(),
        bs.len() == bs_pre.len(),
        bs[idx] == bs_pre[idx].push((k, v)),
        forall|i: int| 0 <= i < bs_pre.len() && i != idx ==> bs[i] == bs_pre[i],
        buckets_keys_unique(bs_pre),
        !buckets_have_key(bs_pre, k),
    ensures
        buckets_keys_unique(bs),
{
    let jn = bs[idx].len() - 1;
    assert forall|i1: int, j1: int, i2: int, j2: int|
        #![trigger bs[i1][j1], bs[i2][j2]]
        (0 <= i1 < bs.len() && 0 <= j1 < bs[i1].len() && 0 <= i2 < bs.len() && 0 <= j2
            < bs[i2].len() && bs[i1][j1].0 == bs[i2][j2].0) implies (i1 == i2 && j1 == j2) by {
        let new1 = i1 == idx && j1 == jn;
        let new2 = i2 == idx && j2 == jn;
        if new1 && !new2 {
            assert(pair_at(bs_pre, i2, j2, bs_pre[i2][j2].0, bs_pre[i2][j2].1));
            assert(pair_in(bs_pre, k, bs_pre[i2][j2].1));
        } else if !new1 && new2 {
            assert(pair_at(bs_pre, i1, j1, bs_pre[i1][j1].0, bs_pre[i1][j1].1));
            assert(pair_in(bs_pre, k, bs_pre[i1][j1].1));
        } else if !new1 && !new2 {
            assert(bs_pre[i1][j1].0 == bs_pre[i2][j2].0);
        }
    }
}

/// Appending a pair to the bucket its key hashes to keeps the table placed.
proof fn lemma_table_push_placed<V>(
    bs_pre: Seq<Seq<(u64, V)>>,
    bs: Seq<Seq<(u64, V)>>,
    idx: int,
    k: u64,
    v: V,
)
    requires
        0 <= idx < bs_pre.len(),
        bs.len() == bs_pre.len(),
        bs[idx] == bs_pre[idx].push((k, v)),
        forall|i: int| 0 <= i < bs_pre.len() && i != idx ==> bs[i] == bs_pre[i],
        buckets_placed(bs_pre),
        spec_bucket_index(k, bs_pre.len() as int) == idx,
    ensures
        buckets_placed(bs),
{
    let jn = bs[idx].len() - 1;
    assert forall|i: int, j: int|
        #![trigger bs[i][j]]
        (0 <= i < bs.len() && 0 <= j < bs[i].len()) implies spec_bucket_index(
        bs[i][j].0,
        bs.len() as int,
    ) == i by {
        if !(i == idx && j == jn) {
            assert(bs[i][j] == bs_pre[i][j]);
        }
    }
}

/// A hash map from `u64` keys to values: chained buckets, each key kept in
/// the bucket its hash selects, with a doubling resize once the entry count
/// outgrows twice the bucket count.
pub struct HashMap<V> {
    buckets: Vec<Vec<(u64, V)>>,
    count: usize,
    hasher: u64,
}

impl<V> View for HashMap<V> {
    type V = Map<u64, V>;

    closed spec fn view(&self) -> Map<u64, V> {
        buckets_as_map(table_view(self.buckets@))
    }
}

impl<V> HashMap<V> {
    /// The bucket table of this map.
    pub closed spec fn spec_buckets(self) -> Seq<Seq<(u64, V)>> {
        table_view(self.buckets@)
    }

    /// There is at least one bucket, no key is stored twice, and every pair
    /// sits in the bucket its key hashes to.
    pub closed spec fn wf(self) -> bool {
        &&& self.buckets@.len() > 0
        &&& buckets_keys_unique(self.spec_buckets())
        &&& buckets_placed(self.spec_buckets())
    }

    /// A table of `n` empty buckets.
    fn empty_buckets(n: usize) -> (r: Vec<Vec<(u64, V)>>)
        requires
            n >= 1,
        ensures
            r@.len() == n,
            forall|i: int| 0 <= i < n ==> (#[trigger] r@[i])@.len() == 0,
    {
        let mut buckets: Vec<Vec<(u64, V)>> = Vec::with_capacity(n);
        let mut i: usize = 0;
        while i < n
            invariant
                i <= n,
                buckets@.len() == i,
                forall|t: int| 0 <= t < i ==> (#[trigger] buckets@[t])@.len() == 0,
            decreases n - i,
        {
            buckets.push(Vec::new());
            i = i + 1;
        }
        buckets
    }

    /// Creates an empty map with 16 buckets.
    pub fn new() -> (r: Self)
        ensures
            r.wf(),
            r@ == Map::<u64, V>::empty(),
    {
        Self::with_capacity(16)
    }

    /// Creates an empty map with `capacity` buckets.
    pub fn with_capacity(capacity: usize) -> (r: Self)
        requires
            capacity >= 1,
        ensures
            r.wf(),
            r@ == Map::<u64, V>::empty(),
    {
        let buckets = Self::empty_buckets(capacity);
        let r = HashMap { buckets, count: 0, hasher: 0 };
        proof {
            let bs = r.spec_buckets();
            assert forall|k: u64| !buckets_have_key(bs, k) by {
                if buckets_have_key(bs, k) {
                    let v = choose|v: V| pair_in(bs, k, v);
                    let (i, j) = choose|i: int, j: int| pair_at(bs, i, j, k, v);
                }
            }
            assert(r@ =~= Map::<u64, V>::empty());
        }
        r
    }

    /// Looks up `key`, returning a reference to its value if present.
    #[verifier::loop_isolation(false)]
    pub fn get(&self, key: &u64) -> (r: Option<&V>)
        requires
            self.wf(),
        ensures
            match r {
                Some(v) => self@.contains_key(*key) && *v == self@[*key],
                None => !self@.contains_key(*key),
            },
    {
        let k: u64 = *key;
        let h = hash_key(self.hasher, k);
        let n = self.buckets.len();
        let idx = (h % (n as u64)) as usize;
        let ghost bs = self.spec_buckets();
        proof {
            assert(idx as int == spec_bucket_index(k, bs.len() as int));
        }
        let blen = self.buckets[idx].len();
        let mut j: usize = 0;
        while j < blen
            invariant
                j <= blen,
                forall|t: int| 0 <= t < j ==> (#[trigger] bs[idx as int][t]).0 != k,
            decreases blen - j,
        {
            if self.buckets[idx][j].0 == k {
                proof {
                    let v = bs[idx as int][j as int].1;
                    assert(pair_at(bs, idx as int, j as int, k, v));
                    assert(pair_in(bs, k, v));
                    lemma_value_unique(bs, k, buckets_value_of(bs, k), v);
                }
                return Some(&self.buckets[idx][j].1);
            }
            j = j + 1;
        }
        proof {
            if buckets_have_key(bs, k) {
                let v = choose|v: V| pair_in(bs, k, v);
                let (i2, j2) = choose|i2: int, j2: int| pair_at(bs, i2, j2, k, v);
                assert(spec_bucket_index(k, bs.len() as int) == i2);
            }
        }
        None
    }

    /// Moves every pair into a table of twice as many buckets, re-placing
    /// each by its hash.
    #[verifier::loop_isolation(false)]
    #[verifier::rlimit(100)]
    #[verifier::spinoff_prover]
    fn resize(&mut self)
        requires
            old(self).wf(),
            2 * old(self).spec_buckets().len() <= usize::MAX,
        ensures
            final(self).wf(),
            final(self)@ == old(self)@,
            final(self).spec_hasher() == old(self).spec_hasher(),
    {
        let new_size = self.buckets.len() * 2;
        let mut new_buckets: Vec<Vec<(u64, V)>> = Self::empty_buckets(new_size);
        let ghost orig = old(self).spec_buckets();
        proof {
            assert forall|k: u64, v: V| !pair_in(table_view(new_buckets@), k, v) by {
                if pair_in(table_view(new_buckets@), k, v) {
                    let (i, j) = choose|i: int, j: int| pair_at(table_view(new_buckets@), i, j, k, v);
                }
            }
        }
        while self.buckets.len() > 0
            invariant
                self.buckets@.len() <= orig.len(),
                self.spec_buckets() =~= orig.subrange(0, self.buckets@.len() as int),
                self.spec_hasher() == old(self).spec_hasher(),
                new_buckets@.len() == new_size,
                buckets_placed(table_view(new_buckets@)),
                buckets_keys_unique(table_view(new_buckets@)),
                forall|k: u64, v: V|
                    #![trigger pair_in(orig, k, v)]
                    #![trigger pair_in(table_view(new_buckets@), k, v)]
                    pair_in(orig, k, v) <==> (pair_in(self.spec_buckets(), k, v) || pair_in(
                        table_view(new_buckets@),
                        k,
                        v,
                    )),
                forall|k: u64, v: V, v2: V|
                    !(pair_in(self.spec_buckets(), k, v) && pair_in(
                        table_view(new_buckets@),
                        k,
                        v2,
                    )),
            decreases self.buckets@.len(),
        {
            let ghost rem_pre = self.spec_buckets();
            let popped = self.buckets.pop();
            if let Some(mut bucket) = popped {
                let ghost rem = self.spec_buckets();
                let ghost bi = rem.len() as int;
                proof {
                    assert(bucket@ == rem_pre[bi]);
                    assert(rem =~= rem_pre.subrange(0, bi));
                    lemma_table_pop(rem_pre, rem, bucket@);
                    // a pair of the dropped bucket sits at `(bi, j)` in
                    // `rem_pre`, so its key collides with no pair of `rem`
                    // and no second pair of the bucket, `rem_pre` being a
                    // prefix of the unique table `orig`
                    assert forall|k: u64, v: V, v2: V|
                        !(bucket_pair_in(bucket@, k, v) && pair_in(rem, k, v2)) by {
                        if bucket_pair_in(bucket@, k, v) && pair_in(rem, k, v2) {
                            let j = choose|j: int| 0 <= j < bucket@.len() && bucket@[j] == (k, v);
                            let (i2, j2) = choose|i2: int, j2: int| pair_at(rem, i2, j2, k, v2);
                            assert(pair_at(orig, bi, j, k, v));
                            assert(pair_at(orig, i2, j2, k, v2));
                            assert(orig[bi][j].0 == orig[i2][j2].0);
                        }
                    }
                    assert forall|t1: int, t2: int|
                        #![trigger bucket@[t1], bucket@[t2]]
                        (0 <= t1 < t2 < bucket@.len()) implies bucket@[t1].0 != bucket@[t2].0 by {
                        assert(orig[bi][t1].0 == bucket@[t1].0);
                        assert(orig[bi][t2].0 == bucket@[t2].0);
                    }
                }
                while bucket.len() > 0
                    invariant
                        new_buckets@.len() == new_size,
                        buckets_placed(table_view(new_buckets@)),
                        buckets_keys_unique(table_view(new_buckets@)),
                        self.spec_buckets() == rem,
                        forall|t1: int, t2: int|
                            #![trigger bucket@[t1], bucket@[t2]]
                            (0 <= t1 < t2 < bucket@.len()) ==> bucket@[t1].0 != bucket@[t2].0,
                        forall|k: u64, v: V|
                            #![trigger pair_in(orig, k, v)]
                            #![trigger pair_in(table_view(new_buckets@), k, v)]
                            #![trigger bucket_pair_in(bucket@, k, v)]
                            pair_in(orig, k, v) <==> (pair_in(rem, k, v) || bucket_pair_in(
                                bucket@,
                                k,
                                v,
                            ) || pair_in(table_view(new_buckets@), k, v)),
                        forall|k: u64, v: V, v2: V|
                            !(pair_in(rem, k, v) && pair_in(table_view(new_buckets@), k, v2)),
                        forall|k: u64, v: V, v2: V|
                            !(pair_in(rem, k, v) && bucket_pair_in(bucket@, k, v2)),
                        forall|k: u64, v: V, v2: V|
                            !(bucket_pair_in(bucket@, k, v) && pair_in(
                                table_view(new_buckets@),
                                k,
                                v2,
                            )),
                    decreases bucket@.len(),
                {
                    let ghost bkt_pre = bucket@;
                    let ghost nb_pre = table_view(new_buckets@);
                    let p2 = bucket.pop();
                    if let Some(p) = p2 {
                        let (k, v) = p;
                        let h2 = hash_key(self.hasher, k);
                        let idx2 = (h2 % (new_size as u64)) as usize;
                        proof {
                            assert(idx2 as int == spec_bucket_index(k, new_size as int));
                        }
                        new_buckets[idx2].push((k, v));
                        proof {
                            let nb = table_view(new_buckets@);
                            assert(bkt_pre[bkt_pre.len() - 1] == (k, v));
                            assert(bucket@ == bkt_pre.subrange(0, bkt_pre.len() - 1));
                            lemma_bucket_pop(bkt_pre, bucket@, k, v);
                            assert(nb[idx2 as int] == nb_pre[idx2 as int].push((k, v)));
                            assert forall|i: int| 0 <= i < new_size && i != idx2 implies nb[i]
                                == nb_pre[i] by {}
                            assert(!buckets_have_key(nb_pre, k)) by {
                                if buckets_have_key(nb_pre, k) {
                                    let v3 = choose|v3: V| pair_in(nb_pre, k, v3);
                                    assert(bucket_pair_in(bkt_pre, k, v));
                                }
                            }
                            lemma_table_push(nb_pre, nb, idx2 as int, k, v);
                            lemma_table_push_unique(nb_pre, nb, idx2 as int, k, v);
                            lemma_table_push_placed(nb_pre, nb, idx2 as int, k, v);
                            // the moved pair's key cannot recur in the
                            // shrunken bucket or in `rem`
                            assert forall|k2: u64, v2: V, v3: V|
                                !(bucket_pair_in(bucket@, k2, v2) && pair_in(nb, k2, v3)) by {
                                if bucket_pair_in(bucket@, k2, v2) && pair_in(nb, k2, v3) {
                                    assert(bucket_pair_in(bkt_pre, k2, v2));
                                    if k2 == k && v3 == v {
                                        let j = choose|j: int|
                                            0 <= j < bucket@.len() && bucket@[j] == (k2, v2);
                                        assert(bkt_pre[j] == (k2, v2));
                                        assert(bkt_pre[bkt_pre.len() - 1].0 == bkt_pre[j].0);
                                    } else {
                                        assert(pair_in(nb_pre, k2, v3));
                                    }
                                }
                            }
                            assert forall|k2: u64, v2: V, v3: V|
                                !(pair_in(rem, k2, v2) && pair_in(nb, k2, v3)) by {
                                if pair_in(rem, k2, v2) && pair_in(nb, k2, v3) {
                                    if k2 == k && v3 == v {
                                        assert(bucket_pair_in(bkt_pre, k2, v));
                                    } else {
                                        assert(pair_in(nb_pre, k2, v3));
                                    }
                                }
                            }
                        }
                    }
                }
            }
        }
        self.buckets = new_buckets;
        proof {
            let nb = self.spec_buckets();
            assert forall|k: u64, v: V| pair_in(orig, k, v) == pair_in(nb, k, v) by {}
            assert(buckets_keys_unique(orig));
            lemma_same_pairs_same_map(orig, nb);
        }
    }

    /// The seed handed to each hasher.
    pub closed spec fn spec_hasher(self) -> u64 {
        self.hasher
    }

    /// Inserts `value` under `key`, replacing any previous value; afterward
    /// the map is the old map with that one entry set.
    #[verifier::loop_isolation(false)]
    #[verifier::rlimit(100)]
    #[verifier::spinoff_prover]
    pub fn insert(&mut self, key: u64, value: V)
        requires
            old(self).wf(),
        ensures
            final(self).wf(),
            final(self)@ == old(self)@.insert(key, value),
    {
        if self.buckets.len() <= usize::MAX / 2 && self.count > self.buckets.len() * 2 {
            self.resize();
        }
        let h = hash_key(self.hasher, key);
        let n = self.buckets.len();
        let idx = (h % (n as u64)) as usize;
        let ghost bs1 = self.spec_buckets();
        proof {
            assert(idx as int == spec_bucket_index(key, bs1.len() as int));
        }
        let blen = self.buckets[idx].len();
        let mut j: usize = 0;
        let mut found: usize = blen;
        while j < blen
            invariant
                j <= blen,
                found == blen || (found < j && bs1[idx as int][found as int].0 == key),
                found == blen ==> forall|t: int| 0 <= t < j ==> (#[trigger] bs1[idx as int][t]).0
                    != key,
            decreases blen - j,
        {
            if self.buckets[idx][j].0 == key && found == blen {
                found = j;
            }
            j = j + 1;
        }
        if found < blen {
            self.buckets[idx][found] = (key, value);
            proof {
                let bs2 = self.spec_buckets();
                assert(bs2[idx as int] == bs1[idx as int].update(found as int, (key, value)));
                assert forall|i: int| 0 <= i < bs1.len() && i != idx implies bs2[i] == bs1[i] by {}
                assert forall|k: u64, v: V| k != key implies (pair_in(bs1, k, v) == pair_in(
                    bs2,
                    k,
                    v,
                )) by {
                    if pair_in(bs1, k, v) {
                        let (i4, j4) = choose|i4: int, j4: int| pair_at(bs1, i4, j4, k, v);
                        assert(pair_at(bs2, i4, j4, k, v));
                    }
                    if pair_in(bs2, k, v) {
                        let (i4, j4) = choose|i4: int, j4: int| pair_at(bs2, i4, j4, k, v);
                        assert(pair_at(bs1, i4, j4, k, v));
                    }
                }
                assert(pair_at(bs2, idx as int, found as int, key, value));
                assert(buckets_keys_unique(bs2)) by {
                    assert forall|i1: int, j1: int, i2: int, j2: int|
                        #![trigger bs2[i1][j1], bs2[i2][j2]]
                        (0 <= i1 < bs2.len() && 0 <= j1 < bs2[i1].len() && 0 <= i2 < bs2.len() && 0
                            <= j2 < bs2[i2].len() && bs2[i1][j1].0 == bs2[i2][j2].0) implies (i1
                        == i2 && j1 == j2) by {
                        assert(bs1[i1][j1].0 == bs2[i1][j1].0);
                        assert(bs1[i2][j2].0 == bs2[i2][j2].0);
                    }
                }
                assert(buckets_placed(bs2)) by {
                    assert forall|i: int, j2: int|
                        #![trigger bs2[i][j2]]
                        (0 <= i < bs2.len() && 0 <= j2 < bs2[i].len()) implies spec_bucket_index(
                        bs2[i][j2].0,
                        bs2.len() as int,
                    ) == i by {
                        assert(bs1[i][j2].0 == bs2[i][j2].0);
                    }
                }
                lemma_insert_pair_map(bs1, bs2, key, value);
            }
        } else {
            self.buckets[idx].push((key, value));
            self.count = self.count.wrapping_add(1);
            proof {
                let bs2 = self.spec_buckets();
                let jn = bs2[idx as int].len() - 1;
                assert(bs2[idx as int] == bs1[idx as int].push((key, value)));
                assert forall|i: int| 0 <= i < bs1.len() && i != idx implies bs2[i] == bs1[i] by {}
                assert(pair_at(bs2, idx as int, jn, key, value));
                // no slot of the old table holds this key: its bucket was
                // scanned in full, and placement rules out every other bucket
                assert forall|i: int, j4: int|
                    #![trigger bs1[i][j4]]
                    (0 <= i < bs1.len() && 0 <= j4 < bs1[i].len()) implies bs1[i][j4].0 != key by {
                    if bs1[i][j4].0 == key {
                        assert(spec_bucket_index(key, bs1.len() as int) == i);
                    }
                }
                assert forall|k: u64, v: V| k != key implies (pair_in(bs1, k, v) == pair_in(
                    bs2,
                    k,
                    v,
                )) by {
                    if pair_in(bs1, k, v) {
                        let (i4, j4) = choose|i4: int, j4: int| pair_at(bs1, i4, j4, k, v);
                        assert(pair_at(bs2, i4, j4, k, v));
                    }
                    if pair_in(bs2, k, v) {
                        let (i4, j4) = choose|i4: int, j4: int| pair_at(bs2, i4, j4, k, v);
                        if i4 == idx && j4 == jn {
                        } else {
                            assert(pair_at(bs1, i4, j4, k, v));
                        }
                    }
                }
                assert(buckets_keys_unique(bs2)) by {
                    assert forall|i1: int, j1: int, i2: int, j2: int|
                        #![trigger bs2[i1][j1], bs2[i2][j2]]
                        (0 <= i1 < bs2.len() && 0 <= j1 < bs2[i1].len() && 0 <= i2 < bs2.len() && 0
                            <= j2 < bs2[i2].len() && bs2[i1][j1].0 == bs2[i2][j2].0) implies (i1
                        == i2 && j1 == j2) by {
                        let new1 = i1 == idx && j1 == jn;
                        let new2 = i2 == idx && j2 == jn;
                        if new1 && !new2 {
                            assert(bs1[i2][j2].0 == key);
                        } else if !new1 && new2 {
                            assert(bs1[i1][j1].0 == key);
                        } else if !new1 && !new2 {
                            assert(bs1[i1][j1].0 == bs1[i2][j2].0);
                        }
                    }
                }
                assert(buckets_placed(bs2)) by {
                    assert forall|i: int, j4: int|
                        #![trigger bs2[i][j4]]
                        (0 <= i < bs2.len() && 0 <= j4 < bs2[i].len()) implies spec_bucket_index(
                        bs2[i][j4].0,
                        bs2.len() as int,
                    ) == i by {
                        if i == idx && j4 == jn {
                        } else {
                            assert(bs2[i][j4] == bs1[i][j4]);
                        }
                    }
                }
                lemma_insert_pair_map(bs1, bs2, key, value);
            }
        }
    }

    /// Returns every key-value pair currently in the map.
    #[verifier::loop_isolation(false)]
    pub fn iter(&self) -> (r: Vec<(u64, V)>) where V: Copy
        requires
            self.wf(),
        ensures
            forall|p: (u64, V)|
                #[trigger] r@.contains(p) <==> (self@.contains_key(p.0) && self@[p.0] == p.1),
            forall|t1: int, t2: int|
                #![trigger r@[t1], r@[t2]]
                (0 <= t1 < t2 < r@.len()) ==> r@[t1].0 != r@[t2].0,
    {
        let ghost bs = self.spec_buckets();
        let mut out: Vec<(u64, V)> = Vec::new();
        let mut i: usize = 0;
        let n = self.buckets.len();
        while i < n
            invariant
                i <= n,
                forall|k: u64, v: V| #![trigger pair_in(bs, k, v)] #![trigger out@.contains((k, v))]
                    out@.contains((k, v)) <==> exists|i0: int, j0: int|
                        pair_at(bs, i0, j0, k, v) && i0 < i,
                forall|t1: int, t2: int|
                    #![trigger out@[t1], out@[t2]]
                    (0 <= t1 < t2 < out@.len()) ==> out@[t1].0 != out@[t2].0,
            decreases n - i,
        {
            let blen = self.buckets[i].len();
            let mut j: usize = 0;
            while j < blen
                invariant
                    j <= blen,
                    i < n,
                    blen == bs[i as int].len(),
                    forall|k: u64, v: V| #![trigger pair_in(bs, k, v)] #![trigger out@.contains((k, v))]
                        out@.contains((k, v)) <==> exists|i0: int, j0: int|
                            pair_at(bs, i0, j0, k, v) && (i0 < i || (i0 == i && j0 < j)),
                    forall|t1: int, t2: int|
                        #![trigger out@[t1], out@[t2]]
                        (0 <= t1 < t2 < out@.len()) ==> out@[t1].0 != out@[t2].0,
                decreases blen - j,
            {
                let ghost out_pre = out@;
                let p = self.buckets[i][j];
                out.push(p);
                proof {
                    assert(pair_at(bs, i as int, j as int, p.0, p.1));
                    assert forall|k: u64, v: V|
                        out@.contains((k, v)) == (out_pre.contains((k, v)) || (k == p.0 && v
                            == p.1)) by {
                        if out_pre.contains((k, v)) {
                            let t = choose|t: int| 0 <= t < out_pre.len() && out_pre[t] == (k, v);
                            assert(out@[t] == (k, v));
                        }
                        if k == p.0 && v == p.1 {
                            assert(out@[out_pre.len() as int] == (k, v));
                        }
                        if out@.contains((k, v)) {
                            let t = choose|t: int| 0 <= t < out@.len() && out@[t] == (k, v);
                            if t < out_pre.len() {
                                assert(out_pre[t] == (k, v));
                            } else {
                                assert(out@[t] == p);
                            }
                        }
                    }
                    assert forall|k: u64, v: V|
                        out@.contains((k, v)) <==> exists|i0: int, j0: int|
                            pair_at(bs, i0, j0, k, v) && (i0 < i || (i0 == i && j0 < j + 1)) by {
                        if out@.contains((k, v)) {
                            if out_pre.contains((k, v)) {
                                let (i0, j0) = choose|i0: int, j0: int|
                                    pair_at(bs, i0, j0, k, v) && (i0 < i || (i0 == i && j0 < j));
                                assert(pair_at(bs, i0, j0, k, v) && (i0 < i || (i0 == i && j0 < j
                                    + 1)));
                            } else {
                                assert(pair_at(bs, i as int, j as int, k, v));
                                assert((j as int) < j + 1);
                            }
                        }
                        if exists|i0: int, j0: int|
                            pair_at(bs, i0, j0, k, v) && (i0 < i || (i0 == i && j0 < j + 1)) {
                            let (i0, j0) = choose|i0: int, j0: int|
                                pair_at(bs, i0, j0, k, v) && (i0 < i || (i0 == i && j0 < j + 1));
                            if i0 < i || (i0 == i && j0 < j) {
                                assert(out_pre.contains((k, v)));
                            } else {
                                assert(bs[i as int][j as int] == (k, v));
                            }
                        }
                    }
                    // the pushed pair's key comes from a slot not yet
                    // visited, so it cannot already be in the output
                    assert forall|t: int| 0 <= t < out_pre.len() implies out_pre[t].0 != p.0 by {
                        let k0 = out_pre[t].0;
                        let v0 = out_pre[t].1;
                        assert(out_pre[t] == (k0, v0));
                        assert(out_pre.contains((k0, v0)));
                        if k0 == p.0 {
                            let (i0, j0) = choose|i0: int, j0: int|
                                pair_at(bs, i0, j0, k0, v0) && (i0 < i || (i0 == i && j0 < j));
                            assert(bs[i0][j0].0 == bs[i as int][j as int].0);
                        }
                    }
                }
                j = j + 1;
            }
            i = i + 1;
        }
        proof {
            assert forall|p: (u64, V)| out@.contains(p) <==> (self@.contains_key(p.0) && self@[p.0]
                == p.1) by {
                let (k, v) = p;
                if out@.contains(p) {
                    assert(pair_in(bs, k, v));
                    assert(buckets_have_key(bs, k));
                    lemma_value_unique(bs, k, buckets_value_of(bs, k), v);
                }
                if self@.contains_key(k) && self@[k] == v {
                    assert(pair_in(bs, k, v));
                    let (i0, j0) = choose|i0: int, j0: int| pair_at(bs, i0, j0, k, v);
                }
            }
        }
        out
    }
}

/// Some position of a single bucket holds the pair `(k, v)`.
pub open spec fn bucket_pair_in<V>(b: Seq<(u64, V)>, k: u64, v: V) -> bool {
    exists|j: int| 0 <= j < b.len() && b[j] == (k, v)
}

} // verus!

