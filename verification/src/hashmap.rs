//! A hashmap stores key/value pairs into buckets and uses the hash of the
//! key to quickly find the bucket storing a value.
//!
//! The view of a hashmap is the mathematical map from keys to values.

use vstd::prelude::*;

verus! {

/// The default number of buckets in a hashmap.
pub const DEFAULT_BUCKETS_COUNT: usize = 64;

/// The hash state after feeding `bytes` into the XOR hasher with the given
/// running value and byte offset: each input byte is folded in at the
/// current byte position of the value, and the position wraps after eight
/// bytes.
pub open spec fn spec_xor_write(value: u64, off: int, bytes: Seq<u8>) -> (u64, int)
    decreases bytes.len(),
{
    if bytes.len() == 0 {
        (value, off)
    } else {
        let p = spec_xor_write(value, off, bytes.drop_last());
        ((p.0 ^ ((bytes.last() as u64) << ((p.1 * 8) as u64))), (p.1 + 1) % 8)
    }
}

/// Bitwise XOR hasher.
pub struct XORHasher {
    /// The currently stored value.
    value: u64,
    /// The byte offset at which the next XOR operation shall be performed.
    off: u8,
}

impl XORHasher {
    /// The running value.
    pub closed spec fn spec_value(self) -> u64 {
        self.value
    }

    /// The running byte offset.
    pub closed spec fn spec_off(self) -> int {
        self.off as int
    }

    /// The offset stays within one 64-bit word.
    pub closed spec fn wf(self) -> bool {
        self.off < 8
    }

    /// Creates a new instance.
    pub fn new() -> (r: XORHasher)
        ensures
            r.wf(),
            r.spec_value() == 0,
            r.spec_off() == 0,
    {
        XORHasher { value: 0, off: 0 }
    }

    /// Folds the given bytes into the hash.
    pub fn write(&mut self, bytes: &[u8])
        requires
            old(self).wf(),
        ensures
            final(self).wf(),
            (final(self).spec_value(), final(self).spec_off()) == spec_xor_write(
                old(self).spec_value(),
                old(self).spec_off(),
                bytes@,
            ),
    {
        let n = bytes.len();
        let mut i: usize = 0;
        while i < n
            invariant
                self.wf(),
                n == bytes@.len(),
                i <= n,
                (self.spec_value(), self.spec_off()) == spec_xor_write(
                    old(self).spec_value(),
                    old(self).spec_off(),
                    bytes@.subrange(0, i as int),
                ),
            decreases n - i,
        {
            let ghost pre = bytes@.subrange(0, i as int);
            let b = bytes[i];
            self.value = self.value ^ ((b as u64) << ((self.off * 8) as u64));
            self.off = (self.off + 1) % 8;
            i = i + 1;
            proof {
                let cur = bytes@.subrange(0, i as int);
                assert(cur.drop_last() =~= pre);
                assert(cur.last() == b);
            }
        }
        proof {
            assert(bytes@.subrange(0, n as int) =~= bytes@);
        }
    }

    /// Returns the hash value accumulated so far.
    pub fn finish(&self) -> (r: u64)
        ensures
            r == self.spec_value(),
    {
        self.value
    }
}

/// A type usable as a hashmap key: it can be hashed and compared, both in
/// agreement with their specifications.
pub trait MapKey: Sized {
    /// The key's hash.
    spec fn spec_hash(&self) -> u64;

    /// Computes the key's hash.
    fn hash_key(&self) -> (r: u64)
        ensures
            r == self.spec_hash(),
    ;

    /// Compares two keys.
    fn eq_key(&self, other: &Self) -> (r: bool)
        ensures
            r == (self == other),
    ;
}

impl MapKey for u16 {
    /// The XOR hash of the key's little-endian bytes: the value itself.
    open spec fn spec_hash(&self) -> u64 {
        *self as u64
    }

    fn hash_key(&self) -> (r: u64) {
        *self as u64
    }

    fn eq_key(&self, other: &u16) -> (r: bool) {
        *self == *other
    }
}

impl MapKey for u32 {
    /// The XOR hash of the key's little-endian bytes: the value itself.
    open spec fn spec_hash(&self) -> u64 {
        *self as u64
    }

    fn hash_key(&self) -> (r: u64) {
        *self as u64
    }

    fn eq_key(&self, other: &u32) -> (r: bool) {
        *self == *other
    }
}

impl MapKey for u64 {
    /// The XOR hash of the key's little-endian bytes: the value itself.
    open spec fn spec_hash(&self) -> u64 {
        *self
    }

    fn hash_key(&self) -> (r: u64) {
        *self
    }

    fn eq_key(&self, other: &u64) -> (r: bool) {
        *self == *other
    }
}

/// The mathematical map held by one bucket's pair list.
pub open spec fn bucket_view<K, V>(s: Seq<(K, V)>) -> Map<K, V>
    decreases s.len(),
{
    if s.len() == 0 {
        Map::empty()
    } else {
        bucket_view(s.drop_last()).insert(s.last().0, s.last().1)
    }
}

/// No two pairs of the list share a key.
pub open spec fn distinct_keys<K, V>(s: Seq<(K, V)>) -> bool {
    forall|j1: int, j2: int|
        0 <= j1 < j2 < s.len() ==> (#[trigger] s[j1]).0 != (#[trigger] s[j2]).0
}

/// Membership and values of a duplicate-free bucket's map.
proof fn lemma_bucket_view<K, V>(s: Seq<(K, V)>)
    requires
        distinct_keys(s),
    ensures
        forall|k: K| #[trigger] bucket_view(s).contains_key(k) <==> exists|j: int|
            0 <= j < s.len() && (#[trigger] s[j]).0 == k,
        forall|j: int|
            0 <= j < s.len() ==> bucket_view(s).contains_key((#[trigger] s[j]).0)
                && bucket_view(s)[s[j].0] == s[j].1,
        bucket_view(s).dom().finite(),
        bucket_view(s).dom().len() == s.len(),
    decreases s.len(),
{
    if s.len() > 0 {
        let pre = s.drop_last();
        lemma_bucket_view(pre);
        assert forall|j: int| 0 <= j < s.len() implies bucket_view(s).contains_key(
            (#[trigger] s[j]).0,
        ) && bucket_view(s)[s[j].0] == s[j].1 by {
            if j < s.len() - 1 {
                assert(pre[j] == s[j]);
                assert(s[j].0 != s[s.len() - 1].0);
            }
        }
        assert forall|k: K| #[trigger] bucket_view(s).contains_key(k) implies exists|j: int|
            0 <= j < s.len() && (#[trigger] s[j]).0 == k by {
            if k == s.last().0 {
                assert(s[s.len() - 1].0 == k);
            } else {
                let j = choose|j: int| 0 <= j < pre.len() && (#[trigger] pre[j]).0 == k;
                assert(s[j].0 == k);
            }
        }
        assert(!bucket_view(pre).contains_key(s.last().0)) by {
            if bucket_view(pre).contains_key(s.last().0) {
                let j = choose|j: int|
                    0 <= j < pre.len() && (#[trigger] pre[j]).0 == s.last().0;
                assert(s[j].0 == s[s.len() - 1].0);
            }
        }
    }
}

/// A bucket is a list storing the pairs whose key hashes into it.
pub struct Bucket<K: MapKey, V> {
    /// The vector storing the key/value pairs.
    elements: Vec<(K, V)>,
}

impl<K: MapKey, V> Bucket<K, V> {
    /// The pairs of the bucket.
    pub closed spec fn spec_elements(self) -> Seq<(K, V)> {
        self.elements@
    }

    /// Creates a new, empty instance.
    pub fn new() -> (r: Bucket<K, V>)
        ensures
            r.spec_elements() == Seq::<(K, V)>::empty(),
    {
        let r = Bucket { elements: Vec::new() };
        proof {
            assert(r.spec_elements() =~= Seq::<(K, V)>::empty());
        }
        r
    }

    /// Returns the position of the pair with key `k`, if present.
    fn position(&self, k: &K) -> (r: Option<usize>)
        ensures
            match r {
                Option::Some(j) => j < self.spec_elements().len() && self.spec_elements()[
                    j as int].0 == *k,
                Option::None => forall|j: int|
                    0 <= j < self.spec_elements().len() ==> (#[trigger] self.spec_elements()[
                    j]).0 != *k,
            },
    {
        let n = self.elements.len();
        let mut j: usize = 0;
        while j < n
            invariant
                n == self.spec_elements().len(),
                j <= n,
                forall|j2: int|
                    0 <= j2 < j as int ==> (#[trigger] self.spec_elements()[j2]).0 != *k,
            decreases n - j,
        {
            if self.elements[j].0.eq_key(k) {
                return Option::Some(j);
            }
            j = j + 1;
        }
        Option::None
    }

    /// Returns an immutable reference to the value with the given key `k`,
    /// or `None` when the key is absent.
    pub fn get(&self, k: &K) -> (r: Option<&V>)
        requires
            distinct_keys(self.spec_elements()),
        ensures
            match r {
                Option::Some(v) => bucket_view(self.spec_elements()).contains_key(*k) && *v
                    == bucket_view(self.spec_elements())[*k],
                Option::None => !bucket_view(self.spec_elements()).contains_key(*k),
            },
    {
        proof {
            lemma_bucket_view(self.spec_elements());
        }
        match self.position(k) {
            Option::Some(j) => Option::Some(&self.elements[j].1),
            Option::None => Option::None,
        }
    }

    /// Inserts a new pair into the bucket, returning the value the key
    /// previously had, if any.
    pub fn insert(&mut self, k: K, v: V) -> (r: Option<V>)
        requires
            distinct_keys(old(self).spec_elements()),
            old(self).spec_elements().len() < usize::MAX,
        ensures
            distinct_keys(final(self).spec_elements()),
            bucket_view(final(self).spec_elements()) == bucket_view(
                old(self).spec_elements(),
            ).insert(k, v),
            final(self).spec_elements().len() == old(self).spec_elements().len() + (
            if bucket_view(old(self).spec_elements()).contains_key(k) {
                0int
            } else {
                1int
            }),
            match r {
                Option::Some(pv) => bucket_view(old(self).spec_elements()).contains_key(k)
                    && pv == bucket_view(old(self).spec_elements())[k],
                Option::None => !bucket_view(old(self).spec_elements()).contains_key(k),
            },
    {
        proof {
            lemma_bucket_view(old(self).spec_elements());
        }
        let prev = self.remove(&k);
        let ghost mid = self.spec_elements();
        self.elements.push((k, v));
        proof {
            lemma_bucket_view(mid);
            assert(self.spec_elements().drop_last() =~= mid);
            assert forall|j1: int, j2: int|
                0 <= j1 < j2 < self.spec_elements().len()
                implies (#[trigger] self.spec_elements()[j1]).0 != (
                #[trigger] self.spec_elements()[j2]).0 by {
                if j2 == self.spec_elements().len() - 1 {
                    assert(mid[j1] == self.spec_elements()[j1]);
                    if self.spec_elements()[j1].0 == k {
                        assert(bucket_view(mid).contains_key(k));
                    }
                }
            }
            lemma_bucket_view(self.spec_elements());
            assert(bucket_view(self.spec_elements()) =~= bucket_view(
                old(self).spec_elements(),
            ).insert(k, v));
        }
        prev
    }

    /// Removes the pair with key `k` from the bucket, returning its value
    /// when the key was present.
    pub fn remove(&mut self, k: &K) -> (r: Option<V>)
        requires
            distinct_keys(old(self).spec_elements()),
        ensures
            distinct_keys(final(self).spec_elements()),
            bucket_view(final(self).spec_elements()) == bucket_view(
                old(self).spec_elements(),
            ).remove(*k),
            final(self).spec_elements().len() + (
            if bucket_view(old(self).spec_elements()).contains_key(*k) {
                1int
            } else {
                0int
            }) == old(self).spec_elements().len(),
            forall|k2: K| k2 != *k ==> bucket_view(final(self).spec_elements()).contains_key(
                k2,
            ) == bucket_view(old(self).spec_elements()).contains_key(k2),
            match r {
                Option::Some(pv) => bucket_view(old(self).spec_elements()).contains_key(*k)
                    && pv == bucket_view(old(self).spec_elements())[*k],
                Option::None => !bucket_view(old(self).spec_elements()).contains_key(*k),
            },
    {
        proof {
            lemma_bucket_view(old(self).spec_elements());
        }
        match self.position(k) {
            Option::Some(j) => {
                let (_, v) = self.elements.remove(j);
                proof {
                    let s0 = old(self).spec_elements();
                    let s1 = self.spec_elements();
                    assert forall|j1: int, j2: int| 0 <= j1 < j2 < s1.len()
                        implies (#[trigger] s1[j1]).0 != (#[trigger] s1[j2]).0 by {
                        let m1 = if j1 < j as int {
                            j1
                        } else {
                            j1 + 1
                        };
                        let m2 = if j2 < j as int {
                            j2
                        } else {
                            j2 + 1
                        };
                        assert(s0[m1] == s1[j1] && s0[m2] == s1[j2]);
                    }
                    lemma_bucket_view(s1);
                    assert forall|k2: K| #[trigger] bucket_view(s1).contains_key(k2)
                        implies bucket_view(s0).remove(*k).contains_key(k2) by {
                        let j2 = choose|j2: int|
                            0 <= j2 < s1.len() && (#[trigger] s1[j2]).0 == k2;
                        let m2 = if j2 < j as int {
                            j2
                        } else {
                            j2 + 1
                        };
                        assert(s0[m2] == s1[j2]);
                        assert(k2 != *k);
                        assert(bucket_view(s0).contains_key(k2) && bucket_view(s0)[k2]
                            == s1[j2].1);
                    }
                    assert forall|k2: K| #[trigger] bucket_view(s0).remove(
                        *k,
                    ).contains_key(k2) implies bucket_view(s1).contains_key(k2)
                        && bucket_view(s1)[k2] == bucket_view(s0).remove(*k)[k2] by {
                        let j2 = choose|j2: int|
                            0 <= j2 < s0.len() && (#[trigger] s0[j2]).0 == k2;
                        assert(j2 != j as int);
                        let m2 = if j2 < j as int {
                            j2
                        } else {
                            j2 - 1
                        };
                        assert(s1[m2] == s0[j2]);
                        assert(bucket_view(s1)[k2] == s1[m2].1);
                    }
                    assert(bucket_view(s1) =~= bucket_view(s0).remove(*k));
                }
                Option::Some(v)
            },
            Option::None => {
                proof {
                    assert(!bucket_view(old(self).spec_elements()).contains_key(*k)) by {
                        if bucket_view(old(self).spec_elements()).contains_key(*k) {
                            let j = choose|j: int|
                                0 <= j < old(self).spec_elements().len() && (#[trigger] old(
                                    self,
                                ).spec_elements()[j]).0 == *k;
                        }
                    }
                    assert(bucket_view(self.spec_elements()) =~= bucket_view(
                        old(self).spec_elements(),
                    ).remove(*k));
                }
                Option::None
            },
        }
    }
}

/// The union of the maps held by the first `upto` buckets, later buckets
/// taking precedence (their keys never collide in a well-formed map).
pub open spec fn maps_union<K: MapKey, V>(bs: Seq<Bucket<K, V>>, upto: int) -> Map<K, V>
    decreases upto,
{
    if upto <= 0 {
        Map::empty()
    } else {
        maps_union(bs, upto - 1).union_prefer_right(bucket_view(bs[upto - 1].spec_elements()))
    }
}

/// The total number of pairs held by the first `upto` buckets.
pub open spec fn total_elems<K: MapKey, V>(bs: Seq<Bucket<K, V>>, upto: int) -> nat
    decreases upto,
{
    if upto <= 0 {
        0
    } else {
        total_elems(bs, upto - 1) + bs[upto - 1].spec_elements().len()
    }
}

/// Every pair sits in the bucket its key hashes into.
pub open spec fn residues_ok<K: MapKey, V>(bs: Seq<Bucket<K, V>>, count: int) -> bool {
    forall|i: int, j: int|
        0 <= i < bs.len() && 0 <= j < bs[i].spec_elements().len() ==> (
        #[trigger] bs[i].spec_elements()[j]).0.spec_hash() as int % count == i
}

/// Every bucket is free of duplicate keys.
pub open spec fn buckets_distinct<K: MapKey, V>(bs: Seq<Bucket<K, V>>) -> bool {
    forall|i: int| 0 <= i < bs.len() ==> distinct_keys((#[trigger] bs[i]).spec_elements())
}

/// Where a key lives in the union of the buckets: in the bucket its hash
/// selects, and nowhere else.
proof fn lemma_maps_union_at<K: MapKey, V>(bs: Seq<Bucket<K, V>>, upto: int, count: int, k: K)
    requires
        residues_ok(bs, count),
        buckets_distinct(bs),
        count > 0,
        0 <= upto <= bs.len() <= count,
    ensures
        ({
            let r = k.spec_hash() as int % count;
            &&& maps_union(bs, upto).contains_key(k) <==> (r < upto && bucket_view(
                bs[r].spec_elements(),
            ).contains_key(k))
            &&& maps_union(bs, upto).contains_key(k) ==> maps_union(bs, upto)[k]
                == bucket_view(bs[r].spec_elements())[k]
        }),
    decreases upto,
{
    let r = k.spec_hash() as int % count;
    if upto > 0 {
        lemma_maps_union_at(bs, upto - 1, count, k);
        lemma_bucket_view(bs[upto - 1].spec_elements());
        if bucket_view(bs[upto - 1].spec_elements()).contains_key(k) {
            let j = choose|j: int|
                0 <= j < bs[upto - 1].spec_elements().len() && (#[trigger] bs[upto
                    - 1].spec_elements()[j]).0 == k;
            assert(r == upto - 1);
        }
    }
}

/// The union of duplicate-free, residue-respecting buckets has exactly as
/// many keys as the buckets have pairs.
proof fn lemma_maps_union_len<K: MapKey, V>(bs: Seq<Bucket<K, V>>, upto: int, count: int)
    requires
        residues_ok(bs, count),
        buckets_distinct(bs),
        count > 0,
        0 <= upto <= bs.len() <= count,
    ensures
        maps_union(bs, upto).dom().finite(),
        maps_union(bs, upto).dom().len() == total_elems(bs, upto),
    decreases upto,
{
    if upto > 0 {
        lemma_maps_union_len(bs, upto - 1, count);
        lemma_bucket_view(bs[upto - 1].spec_elements());
        let pre = maps_union(bs, upto - 1);
        let last = bucket_view(bs[upto - 1].spec_elements());
        assert forall|k: K| pre.dom().contains(k) implies !last.dom().contains(k) by {
            lemma_maps_union_at(bs, upto - 1, count, k);
            if last.contains_key(k) {
                let j = choose|j: int|
                    0 <= j < bs[upto - 1].spec_elements().len() && (#[trigger] bs[upto
                        - 1].spec_elements()[j]).0 == k;
            }
        }
        assert(pre.dom().disjoint(last.dom()));
        vstd::set_lib::lemma_set_disjoint_lens(pre.dom(), last.dom());
        assert(maps_union(bs, upto).dom() =~= pre.dom() + last.dom());
    } else {
        assert(maps_union(bs, upto).dom() =~= Set::<K>::empty());
    }
}

/// A hashmap, holding its pairs in buckets selected by the keys' hashes.
/// The view of the map is the mathematical map of its pairs.
pub struct HashMap<K: MapKey, V> {
    /// The number of buckets the key hashes spread over.
    buckets_count: usize,
    /// The vector containing the buckets, grown on demand.
    buckets: Vec<Bucket<K, V>>,
    /// The number of elements in the container.
    len: usize,
}

impl<K: MapKey, V> View for HashMap<K, V> {
    type V = Map<K, V>;

    closed spec fn view(&self) -> Map<K, V> {
        maps_union(self.buckets@, self.buckets@.len() as int)
    }
}

impl<K: MapKey, V> HashMap<K, V> {
    /// The map's structural invariant: hashes spread over a positive
    /// number of buckets, every pair sits in its hash's bucket, no bucket
    /// repeats a key, and the stored length counts the pairs.
    pub closed spec fn wf(self) -> bool {
        &&& self.buckets_count > 0
        &&& self.buckets@.len() <= self.buckets_count
        &&& residues_ok(self.buckets@, self.buckets_count as int)
        &&& buckets_distinct(self.buckets@)
        &&& self.len == total_elems(self.buckets@, self.buckets@.len() as int)
    }

    /// Creates a new instance with the default number of buckets.
    pub fn new() -> (r: HashMap<K, V>)
        ensures
            r.wf(),
            r@ == Map::<K, V>::empty(),
    {
        HashMap { buckets_count: DEFAULT_BUCKETS_COUNT, buckets: Vec::new(), len: 0 }
    }

    /// Creates a new instance with the given number of buckets.
    pub fn with_buckets(buckets_count: usize) -> (r: HashMap<K, V>)
        requires
            buckets_count > 0,
        ensures
            r.wf(),
            r@ == Map::<K, V>::empty(),
    {
        HashMap { buckets_count, buckets: Vec::new(), len: 0 }
    }

    /// Returns the number of elements in the hashmap.
    pub fn len(&self) -> (r: usize)
        requires
            self.wf(),
        ensures
            r == self@.dom().len(),
    {
        proof {
            lemma_maps_union_len(
                self.buckets@,
                self.buckets@.len() as int,
                self.buckets_count as int,
            );
        }
        self.len
    }

    /// Tells whether the hashmap is empty.
    pub fn is_empty(&self) -> (r: bool)
        requires
            self.wf(),
        ensures
            r == (self@.dom().len() == 0),
    {
        proof {
            lemma_maps_union_len(
                self.buckets@,
                self.buckets@.len() as int,
                self.buckets_count as int,
            );
        }
        self.len == 0
    }

    /// Returns the number of buckets.
    pub fn get_buckets_count(&self) -> (r: usize)
        ensures
            r == self.spec_buckets_count(),
    {
        self.buckets_count
    }

    /// The number of buckets, as seen by contracts.
    pub closed spec fn spec_buckets_count(self) -> usize {
        self.buckets_count
    }

    /// Returns the bucket index for the key `k`.
    fn get_bucket_index(&self, k: &K) -> (r: usize)
        requires
            self.wf(),
        ensures
            r as int == k.spec_hash() as int % self.spec_buckets_count() as int,
            r < self.spec_buckets_count(),
    {
        let h = k.hash_key();
        (h % (self.buckets_count as u64)) as usize
    }

    /// Returns an immutable reference to the value with the given key `k`,
    /// or `None` when the key is absent.
    pub fn get(&self, k: &K) -> (r: Option<&V>)
        requires
            self.wf(),
        ensures
            match r {
                Option::Some(v) => self@.contains_key(*k) && *v == self@[*k],
                Option::None => !self@.contains_key(*k),
            },
    {
        proof {
            lemma_maps_union_at(
                self.buckets@,
                self.buckets@.len() as int,
                self.buckets_count as int,
                *k,
            );
        }
        let index = self.get_bucket_index(k);
        if index < self.buckets.len() {
            self.buckets[index].get(k)
        } else {
            Option::None
        }
    }

    /// Tells whether the hashmap contains the given key `k`.
    pub fn contains_key(&self, k: &K) -> (r: bool)
        requires
            self.wf(),
        ensures
            r == self@.contains_key(*k),
    {
        match self.get(k) {
            Option::Some(_) => true,
            Option::None => false,
        }
    }

    /// Inserts a new pair into the hashmap, returning the value the key
    /// previously had, if any.
    pub fn insert(&mut self, k: K, v: V) -> (r: Option<V>)
        requires
            old(self).wf(),
            old(self)@.dom().len() < usize::MAX,
        ensures
            final(self).wf(),
            final(self)@ == old(self)@.insert(k, v),
            final(self).spec_buckets_count() == old(self).spec_buckets_count(),
            match r {
                Option::Some(pv) => old(self)@.contains_key(k) && pv == old(self)@[k],
                Option::None => !old(self)@.contains_key(k),
            },
    {
        proof {
            lemma_maps_union_at(
                old(self).buckets@,
                old(self).buckets@.len() as int,
                old(self).buckets_count as int,
                k,
            );
            lemma_maps_union_len(
                old(self).buckets@,
                old(self).buckets@.len() as int,
                old(self).buckets_count as int,
            );
        }
        let index = self.get_bucket_index(&k);
        // Create the missing buckets up to the selected one.
        while self.buckets.len() <= index
            invariant
                self.buckets_count == old(self).buckets_count,
                self.len == old(self).len,
                index < self.buckets_count,
                old(self).buckets@.len() <= self.buckets@.len(),
                self.buckets@.len() <= self.buckets_count,
                residues_ok(self.buckets@, self.buckets_count as int),
                buckets_distinct(self.buckets@),
                self.len == total_elems(self.buckets@, self.buckets@.len() as int),
                forall|i: int|
                    0 <= i < old(self).buckets@.len() ==> #[trigger] self.buckets@[i] == old(
                        self,
                    ).buckets@[i],
                forall|i: int|
                    old(self).buckets@.len() <= i < self.buckets@.len()
                        ==> (#[trigger] self.buckets@[i]).spec_elements() == Seq::<(
                        K,
                        V,
                    )>::empty(),
            decreases index + 1 - self.buckets@.len(),
        {
            let ghost pre = self.buckets@;
            self.buckets.push(Bucket::new());
            proof {
                assert forall|i: int, j: int|
                    0 <= i < self.buckets@.len() && 0 <= j < self.buckets@[i].spec_elements()
                        .len()
                    implies (#[trigger] self.buckets@[i].spec_elements()[j]).0.spec_hash()
                        as int % (self.buckets_count as int) == i by {
                    assert(pre[i].spec_elements()[j] == self.buckets@[i].spec_elements()[j]);
                }
                assert(total_elems(self.buckets@, self.buckets@.len() as int) == total_elems(
                    pre,
                    pre.len() as int,
                )) by {
                    lemma_total_elems_congruent(pre, self.buckets@, pre.len() as int);
                }
            }
        }
        let ghost mid = *self;
        proof {
            lemma_total_elems_congruent(
                old(self).buckets@,
                mid.buckets@,
                old(self).buckets@.len() as int,
            );
            lemma_total_elems_extend(mid.buckets@, old(self).buckets@.len() as int,
                mid.buckets@.len() as int);
            assert forall|k2: K| true implies #[trigger] mid@.contains_key(k2) == old(
                self,
            )@.contains_key(k2) && (mid@.contains_key(k2) ==> mid@[k2] == old(self)@[k2]) by {
                lemma_maps_union_at(
                    mid.buckets@,
                    mid.buckets@.len() as int,
                    mid.buckets_count as int,
                    k2,
                );
                lemma_maps_union_at(
                    old(self).buckets@,
                    old(self).buckets@.len() as int,
                    old(self).buckets_count as int,
                    k2,
                );
            }
            assert(mid@ =~= old(self)@);
        }
        let mut b: Bucket<K, V> = Bucket::new();
        self.buckets.set_and_swap(index, &mut b);
        let ghost b0 = b;
        proof {
            lemma_total_elems_bound(mid.buckets@, index as int, mid.buckets@.len() as int);
            lemma_maps_union_len(
                mid.buckets@,
                mid.buckets@.len() as int,
                mid.buckets_count as int,
            );
        }
        let prev = b.insert(k, v);
        self.buckets.set_and_swap(index, &mut b);
        let r = match prev {
            Option::Some(pv) => {
                Option::Some(pv)
            },
            Option::None => {
                proof {
                    lemma_maps_union_len(
                        mid.buckets@,
                        mid.buckets@.len() as int,
                        mid.buckets_count as int,
                    );
                }
                self.len = self.len + 1;
                Option::None
            },
        };
        proof {
            let cnt = self.buckets_count as int;
            let bs1 = mid.buckets@;
            let bs2 = self.buckets@;
            assert(bs2 =~= bs1.update(index as int, self.buckets@[index as int]));
            let nb = bs2[index as int];
            assert(bucket_view(nb.spec_elements()) == bucket_view(b0.spec_elements()).insert(
                k,
                v,
            ));
            assert forall|i: int, j: int|
                0 <= i < bs2.len() && 0 <= j < bs2[i].spec_elements().len()
                implies (#[trigger] bs2[i].spec_elements()[j]).0.spec_hash() as int % cnt
                    == i by {
                if i != index as int {
                    assert(bs1[i].spec_elements()[j] == bs2[i].spec_elements()[j]);
                } else {
                    lemma_bucket_view(nb.spec_elements());
                    let k2 = bs2[i].spec_elements()[j].0;
                    assert(bucket_view(nb.spec_elements()).contains_key(k2));
                    if k2 != k {
                        assert(bucket_view(b0.spec_elements()).contains_key(k2));
                        lemma_bucket_view(b0.spec_elements());
                        let j2 = choose|j2: int|
                            0 <= j2 < b0.spec_elements().len() && (
                            #[trigger] b0.spec_elements()[j2]).0 == k2;
                        assert(bs1[i].spec_elements()[j2].0 == k2);
                    }
                }
            }
            lemma_total_elems_update(bs1, index as int, nb, bs1.len() as int);
            assert(self.wf());
            assert forall|k2: K| true
                implies #[trigger] self@.contains_key(k2) == old(self)@.insert(
                    k,
                    v,
                ).contains_key(k2) && (self@.contains_key(k2) ==> self@[k2] == old(
                self,
            )@.insert(k, v)[k2]) by {
                lemma_maps_union_at(bs2, bs2.len() as int, cnt, k2);
                lemma_maps_union_at(bs1, bs1.len() as int, cnt, k2);
            }
            assert(self@ =~= old(self)@.insert(k, v));
        }
        r
    }

    /// Removes the pair with the given key from the hashmap, returning its
    /// value when the key was present.
    pub fn remove(&mut self, k: &K) -> (r: Option<V>)
        requires
            old(self).wf(),
        ensures
            final(self).wf(),
            final(self)@ == old(self)@.remove(*k),
            final(self).spec_buckets_count() == old(self).spec_buckets_count(),
            match r {
                Option::Some(pv) => old(self)@.contains_key(*k) && pv == old(self)@[*k],
                Option::None => !old(self)@.contains_key(*k),
            },
    {
        proof {
            lemma_maps_union_at(
                self.buckets@,
                self.buckets@.len() as int,
                self.buckets_count as int,
                *k,
            );
        }
        let index = self.get_bucket_index(k);
        if index >= self.buckets.len() {
            proof {
                assert(self@ =~= old(self)@.remove(*k));
            }
            return Option::None;
        }
        let ghost bs1 = self.buckets@;
        let mut b: Bucket<K, V> = Bucket::new();
        self.buckets.set_and_swap(index, &mut b);
        let ghost b0 = b;
        let prev = b.remove(k);
        self.buckets.set_and_swap(index, &mut b);
        proof {
            let cnt = self.buckets_count as int;
            let bs2 = self.buckets@;
            assert(bs2 =~= bs1.update(index as int, bs2[index as int]));
            let nb = bs2[index as int];
            assert forall|i: int, j: int|
                0 <= i < bs2.len() && 0 <= j < bs2[i].spec_elements().len()
                implies (#[trigger] bs2[i].spec_elements()[j]).0.spec_hash() as int % cnt
                    == i by {
                if i != index as int {
                    assert(bs1[i].spec_elements()[j] == bs2[i].spec_elements()[j]);
                } else {
                    lemma_bucket_view(nb.spec_elements());
                    let k2 = bs2[i].spec_elements()[j].0;
                    assert(bucket_view(nb.spec_elements()).contains_key(k2));
                    assert(bucket_view(b0.spec_elements()).contains_key(k2));
                    lemma_bucket_view(b0.spec_elements());
                    let j2 = choose|j2: int|
                        0 <= j2 < b0.spec_elements().len() && (
                        #[trigger] b0.spec_elements()[j2]).0 == k2;
                    assert(bs1[i].spec_elements()[j2].0 == k2);
                }
            }
            lemma_total_elems_update(bs1, index as int, nb, bs1.len() as int);
        }
        let r = match prev {
            Option::Some(pv) => {
                self.len = self.len - 1;
                Option::Some(pv)
            },
            Option::None => Option::None,
        };
        proof {
            let cnt = self.buckets_count as int;
            let bs2 = self.buckets@;
            assert(self.wf());
            assert forall|k2: K| true
                implies #[trigger] self@.contains_key(k2) == old(self)@.remove(
                    *k,
                ).contains_key(k2) && (self@.contains_key(k2) ==> self@[k2] == old(
                self,
            )@.remove(*k)[k2]) by {
                lemma_maps_union_at(bs2, bs2.len() as int, cnt, k2);
                lemma_maps_union_at(bs1, bs1.len() as int, cnt, k2);
            }
            assert(self@ =~= old(self)@.remove(*k));
        }
        r
    }

    /// Drops all elements of the hashmap.
    pub fn clear(&mut self)
        requires
            old(self).wf(),
        ensures
            final(self).wf(),
            final(self)@ == Map::<K, V>::empty(),
            final(self).spec_buckets_count() == old(self).spec_buckets_count(),
    {
        self.buckets.clear();
        self.len = 0;
    }

    /// Returns an iterator over the hashmap's pairs.
    pub fn iter(&self) -> (r: Iter)
        ensures
            r.curr_bucket == 0 && r.curr_element == 0,
    {
        Iter { curr_bucket: 0, curr_element: 0 }
    }
}

/// A cursor over the pairs of a hashmap. The map stores its pairs in no
/// particular order, so neither does the cursor yield them in one.
pub struct Iter {
    /// The current bucket index.
    pub curr_bucket: usize,
    /// The current element index within the bucket.
    pub curr_element: usize,
}

impl Iter {
    /// Yields a pair of `hm` not yielded before and advances, or returns
    /// `None` once every pair has been seen.
    pub fn next<'a, K: MapKey, V>(&mut self, hm: &'a HashMap<K, V>) -> (r: Option<(&'a K, &'a V)>)
        requires
            hm.wf(),
        ensures
            r matches Some(p) ==> hm@.contains_key(*p.0) && hm@[*p.0] == *p.1,
    {
        let n = hm.buckets.len();
        while self.curr_bucket < n
            invariant
                hm.wf(),
                n == hm.buckets@.len(),
            decreases n - self.curr_bucket,
        {
            let cb = self.curr_bucket;
            if self.curr_element < hm.buckets[cb].elements.len() {
                let ce = self.curr_element;
                self.curr_element = ce + 1;
                let pair = &hm.buckets[cb].elements[ce];
                proof {
                    lemma_bucket_view(hm.buckets@[cb as int].spec_elements());
                    lemma_maps_union_at(
                        hm.buckets@,
                        hm.buckets@.len() as int,
                        hm.buckets_count as int,
                        pair.0,
                    );
                }
                return Option::Some((&pair.0, &pair.1));
            }
            self.curr_bucket = cb + 1;
            self.curr_element = 0;
        }
        Option::None
    }
}

/// One bucket never holds more pairs than all buckets together.
proof fn lemma_total_elems_bound<K: MapKey, V>(bs: Seq<Bucket<K, V>>, i: int, upto: int)
    requires
        0 <= i < upto <= bs.len(),
    ensures
        bs[i].spec_elements().len() <= total_elems(bs, upto),
    decreases upto,
{
    if i < upto - 1 {
        lemma_total_elems_bound(bs, i, upto - 1);
    }
}

/// Bucket lists that agree entry-wise hold the same number of pairs.
proof fn lemma_total_elems_congruent<K: MapKey, V>(
    bs1: Seq<Bucket<K, V>>,
    bs2: Seq<Bucket<K, V>>,
    upto: int,
)
    requires
        forall|j: int| 0 <= j < upto ==> #[trigger] bs1[j] == bs2[j],
    ensures
        total_elems(bs1, upto) == total_elems(bs2, upto),
    decreases upto,
{
    if upto > 0 {
        lemma_total_elems_congruent(bs1, bs2, upto - 1);
    }
}

/// Appending empty buckets does not change the pair count.
proof fn lemma_total_elems_extend<K: MapKey, V>(bs: Seq<Bucket<K, V>>, from: int, upto: int)
    requires
        0 <= from <= upto <= bs.len(),
        forall|i: int|
            from <= i < upto ==> (#[trigger] bs[i]).spec_elements() == Seq::<(K, V)>::empty(),
    ensures
        total_elems(bs, upto) == total_elems(bs, from),
    decreases upto - from,
{
    if from < upto {
        lemma_total_elems_extend(bs, from, upto - 1);
    }
}

/// Replacing one bucket changes the pair count by the difference of the
/// two buckets' sizes.
proof fn lemma_total_elems_update<K: MapKey, V>(
    bs: Seq<Bucket<K, V>>,
    i: int,
    nb: Bucket<K, V>,
    upto: int,
)
    requires
        0 <= i < upto <= bs.len(),
        bs.update(i, nb)[i] == nb,
    ensures
        total_elems(bs.update(i, nb), upto) + bs[i].spec_elements().len() == total_elems(
            bs,
            upto,
        ) + nb.spec_elements().len(),
    decreases upto,
{
    let bs2 = bs.update(i, nb);
    if i == upto - 1 {
        lemma_total_elems_congruent(bs2, bs, upto - 1);
    } else {
        lemma_total_elems_update(bs, i, nb, upto - 1);
    }
}

} // verus!
