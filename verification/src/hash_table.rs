//! An associative hash table with chained collision resolution and
//! automatic capacity growth.
//!
//! The table owns a vector of buckets; each bucket is a vector of
//! key/value entries whose key hashes, modulo the current capacity, to
//! that bucket's index. Insertion first checks the load factor and, at
//! three quarters of the capacity, doubles the bucket array and rehashes
//! every entry before placing the new one. Lookups and removals scan a
//! single bucket. The abstract model of a table is a map from key
//! contents to values.

use std::collections::hash_map::DefaultHasher;
use std::hash::Hasher;
use vstd::prelude::*;
use vstd::std_specs::hash::DefaultHasherAdditionalSpecFns;

verus! {

/// A key the hash table can use: equality and hashing are pure functions
/// of an abstract model of the key's content, so that a key hashes to the
/// same bucket every time it is looked up.
pub trait TableKey: Sized {
    /// The abstract content of a key; keys compare equal exactly when
    /// their models are equal.
    spec fn key_model(self) -> Seq<char>;

    /// The hash of a key with the given content.
    spec fn hash_spec(m: Seq<char>) -> u64;

    /// Equality of keys, decided by their content.
    fn key_eq(&self, other: &Self) -> (r: bool)
        ensures
            r == (self.key_model() == other.key_model()),
    ;

    /// The hash of this key, a function of its content alone.
    fn hash_code(&self) -> (r: u64)
        ensures
            r == Self::hash_spec(self.key_model()),
    ;
}

impl TableKey for String {
    open spec fn key_model(self) -> Seq<char> {
        self@
    }

    open spec fn hash_spec(m: Seq<char>) -> u64 {
        DefaultHasher::spec_finish(seq![vstd::utf8::encode_utf8(m)])
    }

    fn key_eq(&self, other: &Self) -> (r: bool) {
        self.eq(other)
    }

    fn hash_code(&self) -> (r: u64) {
        let bytes = self.as_str().as_bytes_vec();
        let mut hasher = DefaultHasher::new();
        hasher.write(bytes.as_slice());
        hasher.finish()
    }
}

/// A hash table mapping keys to values, with one vector of entries per
/// bucket and a live-entry count. The capacity is the number of buckets;
/// it only grows.
#[derive(Clone, Debug)]
pub struct HashTable<K, V> {
    pub buckets: Vec<Vec<(K, V)>>,
    pub size: usize,
    pub capacity: usize,
}

impl<K: TableKey, V> HashTable<K, V> {
    /// The bucket index for a key with content `m` at the given capacity.
    pub open spec fn bucket_of(m: Seq<char>, capacity: int) -> int {
        (K::hash_spec(m) as usize) as int % capacity
    }

    /// The value stored for content `m` in one bucket, scanning entries.
    pub open spec fn slot_find(b: Seq<(K, V)>, m: Seq<char>) -> Option<V>
        decreases b.len(),
    {
        if b.len() == 0 {
            None
        } else if b.last().0.key_model() == m {
            Some(b.last().1)
        } else {
            Self::slot_find(b.drop_last(), m)
        }
    }

    /// The map held by one bucket.
    pub open spec fn slot_map(b: Seq<(K, V)>) -> Map<Seq<char>, V>
        decreases b.len(),
    {
        if b.len() == 0 {
            Map::empty()
        } else {
            Self::slot_map(b.drop_last()).insert(b.last().0.key_model(), b.last().1)
        }
    }

    /// The map held by a sequence of buckets, wherever each entry sits.
    pub open spec fn all_map(bs: Seq<Vec<(K, V)>>) -> Map<Seq<char>, V>
        decreases bs.len(),
    {
        if bs.len() == 0 {
            Map::empty()
        } else {
            Self::all_map(bs.drop_last()).union_prefer_right(Self::slot_map(bs.last()@))
        }
    }

    /// The total number of entries across the buckets.
    pub open spec fn sum_lens(bs: Seq<Vec<(K, V)>>) -> nat
        decreases bs.len(),
    {
        if bs.len() == 0 {
            0
        } else {
            Self::sum_lens(bs.drop_last()) + bs.last()@.len()
        }
    }

    /// Each entry sits in the bucket its key hashes to, and no two entries
    /// of a bucket have the same key content.
    pub open spec fn buckets_wf(bs: Seq<Vec<(K, V)>>, capacity: int) -> bool {
        &&& bs.len() == capacity
        &&& forall|i: int, j: int|
            0 <= i < bs.len() && 0 <= j < bs[i]@.len() ==> Self::bucket_of(
                (#[trigger] bs[i]@[j]).0.key_model(),
                capacity,
            ) == i
        &&& forall|i: int, j1: int, j2: int|
            0 <= i < bs.len() && 0 <= j1 < j2 < bs[i]@.len() ==> (#[trigger] bs[i]@[j1]).0.key_model()
                != (#[trigger] bs[i]@[j2]).0.key_model()
    }

    /// The map represented by well-placed buckets: a key's content is
    /// looked up in the bucket it hashes to.
    pub open spec fn buckets_map(bs: Seq<Vec<(K, V)>>, capacity: int) -> Map<Seq<char>, V> {
        Map::new(
            |m: Seq<char>| Self::slot_find(bs[Self::bucket_of(m, capacity)]@, m) is Some,
            |m: Seq<char>| Self::slot_find(bs[Self::bucket_of(m, capacity)]@, m).unwrap(),
        )
    }

    /// The table's invariant: a positive capacity, one vector per bucket,
    /// well-placed distinct entries, and an accurate entry count.
    pub open spec fn wf(self) -> bool {
        &&& self.capacity >= 1
        &&& Self::buckets_wf(self.buckets@, self.capacity as int)
        &&& self.size == Self::sum_lens(self.buckets@)
    }

    /// The abstract content of the table: a map from key content to value.
    pub open spec fn as_map(self) -> Map<Seq<char>, V> {
        Self::buckets_map(self.buckets@, self.capacity as int)
    }

    /// The hash of a key, reduced to the platform word.
    pub fn hash(key: &K) -> (r: usize)
        ensures
            r == K::hash_spec(key.key_model()) as usize,
    {
        key.hash_code() as usize
    }

    /// The bucket index of a key at the given capacity.
    pub fn hash_index(key: &K, capacity: usize) -> (r: usize)
        requires
            capacity >= 1,
        ensures
            r == Self::bucket_of(key.key_model(), capacity as int),
            r < capacity,
    {
        Self::hash(key) % capacity
    }

    fn new_buckets(capacity: usize) -> (r: Vec<Vec<(K, V)>>)
        ensures
            r@.len() == capacity,
            forall|i: int| 0 <= i < capacity ==> (#[trigger] r@[i])@.len() == 0,
            Self::sum_lens(r@) == 0,
            Self::buckets_wf(r@, capacity as int),
    {
        let mut buckets: Vec<Vec<(K, V)>> = Vec::with_capacity(capacity);
        let mut k: usize = 0;
        while k < capacity
            invariant
                k <= capacity,
                buckets@.len() == k,
                forall|i: int| 0 <= i < k ==> (#[trigger] buckets@[i])@.len() == 0,
                Self::sum_lens(buckets@) == 0,
            decreases capacity - k,
        {
            let ghost pre = buckets@;
            buckets.push(Vec::new());
            proof {
                assert(buckets@.drop_last() =~= pre);
            }
            k += 1;
        }
        buckets
    }

    /// Creates an empty table with the given number of buckets.
    pub fn new(capacity: usize) -> (t: Self)
        requires
            capacity >= 1,
        ensures
            t.wf(),
            t.as_map() == Map::<Seq<char>, V>::empty(),
            t.capacity == capacity,
            t.size == 0,
    {
        let t = HashTable { buckets: Self::new_buckets(capacity), size: 0, capacity };
        proof {
            assert forall|m: Seq<char>|
                Self::slot_find(t.buckets@[Self::bucket_of(m, capacity as int)]@, m)
                    is None by {
                let i = Self::bucket_of(m, capacity as int);
                assert(0 <= i < capacity);
            }
            assert(t.as_map() =~= Map::<Seq<char>, V>::empty());
        }
        t
    }

    /// No two entries of the bucket have the same key content.
    pub open spec fn slot_unique(b: Seq<(K, V)>) -> bool {
        forall|j1: int, j2: int|
            0 <= j1 < j2 < b.len() ==> (#[trigger] b[j1]).0.key_model() != (
            #[trigger] b[j2]).0.key_model()
    }

    /// In a bucket without repeated key contents, the scan succeeds exactly
    /// when a matching entry exists, and returns that entry's value.
    proof fn lemma_slot_find_unique(b: Seq<(K, V)>, m: Seq<char>)
        requires
            Self::slot_unique(b),
        ensures
            (Self::slot_find(b, m) is Some) == (exists|j: int|
                0 <= j < b.len() && (#[trigger] b[j]).0.key_model() == m),
            forall|j: int|
                0 <= j < b.len() && (#[trigger] b[j]).0.key_model() == m ==> Self::slot_find(b, m)
                    == Some(b[j].1),
        decreases b.len(),
    {
        if b.len() > 0 {
            let prefix = b.drop_last();
            assert forall|j1: int, j2: int| 0 <= j1 < j2 < prefix.len() implies (
            #[trigger] prefix[j1]).0.key_model() != (#[trigger] prefix[j2]).0.key_model() by {
                assert(b[j1] == prefix[j1]);
                assert(b[j2] == prefix[j2]);
            }
            Self::lemma_slot_find_unique(prefix, m);
            if b.last().0.key_model() == m {
                assert(b[b.len() - 1].0.key_model() == m);
                assert forall|j: int|
                    0 <= j < b.len() && (#[trigger] b[j]).0.key_model() == m implies Self::slot_find(
                    b,
                    m,
                ) == Some(b[j].1) by {
                    if j < b.len() - 1 {
                        assert(b[j].0.key_model() != b[b.len() - 1].0.key_model());
                    }
                }
            } else {
                assert forall|j: int|
                    0 <= j < b.len() && (#[trigger] b[j]).0.key_model() == m implies Self::slot_find(
                    b,
                    m,
                ) == Some(b[j].1) by {
                    assert(j < b.len() - 1);
                    assert(prefix[j] == b[j]);
                }
                if Self::slot_find(b, m) is Some {
                    let j = choose|j: int|
                        0 <= j < prefix.len() && (#[trigger] prefix[j]).0.key_model() == m;
                    assert(b[j].0.key_model() == m);
                }
            }
        }
    }

    /// The scan of a bucket agrees with the map the bucket holds.
    proof fn lemma_slot_find_is_slot_map(b: Seq<(K, V)>, m: Seq<char>)
        ensures
            Self::slot_find(b, m) == (if Self::slot_map(b).contains_key(m) {
                Some(Self::slot_map(b)[m])
            } else {
                None::<V>
            }),
        decreases b.len(),
    {
        if b.len() > 0 {
            Self::lemma_slot_find_is_slot_map(b.drop_last(), m);
        }
    }

    /// Replacing one bucket changes the entry total by the difference of
    /// the bucket lengths.
    proof fn lemma_sum_update(bs: Seq<Vec<(K, V)>>, i: int, b2: Vec<(K, V)>)
        requires
            0 <= i < bs.len(),
        ensures
            Self::sum_lens(bs.update(i, b2)) + bs[i]@.len() == Self::sum_lens(bs) + b2@.len(),
        decreases bs.len(),
    {
        let u = bs.update(i, b2);
        if i == bs.len() - 1 {
            assert(u.drop_last() =~= bs.drop_last());
        } else {
            assert(u.drop_last() =~= bs.drop_last().update(i, b2));
            Self::lemma_sum_update(bs.drop_last(), i, b2);
        }
    }

    /// The entry total is at least the length of any one bucket.
    proof fn lemma_sum_bound(bs: Seq<Vec<(K, V)>>, i: int)
        requires
            0 <= i < bs.len(),
        ensures
            Self::sum_lens(bs) >= bs[i]@.len(),
        decreases bs.len(),
    {
        if i == bs.len() - 1 {
        } else {
            Self::lemma_sum_bound(bs.drop_last(), i);
        }
    }

    #[verifier::loop_isolation(false)]
    fn buckets_insert(buckets: &mut Vec<Vec<(K, V)>>, capacity: usize, key: K, value: V) -> (r:
        bool)
        requires
            capacity >= 1,
            Self::buckets_wf(old(buckets)@, capacity as int),
        ensures
            Self::buckets_wf(final(buckets)@, capacity as int),
            Self::buckets_map(final(buckets)@, capacity as int) == Self::buckets_map(
                old(buckets)@,
                capacity as int,
            ).insert(key.key_model(), value),
            r == !Self::buckets_map(old(buckets)@, capacity as int).contains_key(key.key_model()),
            Self::sum_lens(final(buckets)@) == Self::sum_lens(old(buckets)@) + (if r {
                1int
            } else {
                0int
            }),
    {
        let ghost bs0 = buckets@;
        let ghost km = key.key_model();
        let index = Self::hash_index(&key, capacity);
        let mut el: Vec<(K, V)> = Vec::new();
        core::mem::swap(&mut buckets[index], &mut el);
        let ghost el0 = el@;
        let ghost mid = buckets@;
        let mut i: usize = 0;
        let el_len = el.len();
        while i < el_len
            invariant
                buckets@ == mid,
                el@ == el0,
                el_len == el0.len(),
                i <= el_len,
                forall|j: int| 0 <= j < i ==> (#[trigger] el0[j]).0.key_model() != km,
            decreases el_len - i,
        {
            if el[i].0.key_eq(&key) {
                el[i] = (key, value);
                buckets[index] = el;
                proof {
                    assert(buckets@ =~= bs0.update(index as int, buckets@[index as int]));
                    assert(buckets@[index as int]@.len() == el0.len());
                    Self::lemma_finish_insert(bs0, capacity as int, index as int, el0, buckets@, km, value, i as int, false);
                    Self::lemma_sum_update(bs0, index as int, buckets@[index as int]);
                }
                return false;
            }
            i += 1;
        }
        el.push((key, value));
        buckets[index] = el;
        proof {
            assert(buckets@ =~= bs0.update(index as int, buckets@[index as int]));
            assert(buckets@[index as int]@.len() == el0.len() + 1);
            Self::lemma_finish_insert(bs0, capacity as int, index as int, el0, buckets@, km, value, el0.len() as int, true);
            Self::lemma_sum_update(bs0, index as int, buckets@[index as int]);
        }
        true
    }

    /// After writing an updated bucket back at `index`, the bucket array
    /// holds the old map with `km` bound to `value`, and stays well formed.
    /// `appended` tells whether the entry was appended rather than
    /// overwritten at position `i`.
    proof fn lemma_finish_insert(
        bs0: Seq<Vec<(K, V)>>,
        capacity: int,
        index: int,
        el0: Seq<(K, V)>,
        bs1: Seq<Vec<(K, V)>>,
        km: Seq<char>,
        value: V,
        i: int,
        appended: bool,
    )
        requires
            capacity >= 1,
            Self::buckets_wf(bs0, capacity),
            0 <= index < bs0.len(),
            el0 == bs0[index]@,
            index == Self::bucket_of(km, capacity),
            appended ==> i == el0.len() && bs1 =~= bs0.update(
                index,
                bs1[index],
            ) && bs1[index]@ =~= el0.push(bs1[index]@[el0.len() as int]) && bs1[index]@[el0.len() as int].0.key_model()
                == km && bs1[index]@[el0.len() as int].1 == value,
            !appended ==> 0 <= i < el0.len() && bs1 =~= bs0.update(
                index,
                bs1[index],
            ) && bs1[index]@ =~= el0.update(i, bs1[index]@[i]) && bs1[index]@[i].0.key_model() == km
                && bs1[index]@[i].1 == value,
            forall|j: int| 0 <= j < i ==> (#[trigger] el0[j]).0.key_model() != km,
            !appended ==> el0[i].0.key_model() == km,
        ensures
            Self::buckets_wf(bs1, capacity),
            Self::buckets_map(bs1, capacity) == Self::buckets_map(bs0, capacity).insert(km, value),
            appended == !Self::buckets_map(bs0, capacity).contains_key(km),
    {
        let el1 = bs1[index]@;
        assert(Self::slot_unique(el0)) by {
            assert forall|j1: int, j2: int| 0 <= j1 < j2 < el0.len() implies (
            #[trigger] el0[j1]).0.key_model() != (#[trigger] el0[j2]).0.key_model() by {
                assert(bs0[index]@[j1] == el0[j1]);
                assert(bs0[index]@[j2] == el0[j2]);
            }
        }
        // The rewritten bucket keeps distinct contents, each hashing to `index`.
        assert forall|j1: int, j2: int| 0 <= j1 < j2 < el1.len() implies (
        #[trigger] el1[j1]).0.key_model() != (#[trigger] el1[j2]).0.key_model() by {
            if appended {
                if j2 < el0.len() {
                    assert(el1[j1] == el0[j1] && el1[j2] == el0[j2]);
                } else {
                    assert(el1[j1] == el0[j1]);
                }
            } else {
                if j1 != i && j2 != i {
                    assert(el1[j1] == el0[j1] && el1[j2] == el0[j2]);
                } else if j1 == i {
                    assert(el1[j2] == el0[j2]);
                    assert(el0[i].0.key_model() != el0[j2].0.key_model());
                } else {
                    assert(el1[j1] == el0[j1]);
                    assert(el0[j1].0.key_model() != el0[i].0.key_model());
                }
            }
        }
        assert(Self::slot_unique(el1));
        assert forall|j: int| 0 <= j < el1.len() implies Self::bucket_of(
            (#[trigger] el1[j]).0.key_model(),
            capacity,
        ) == index by {
            if j < el0.len() && (appended || j != i) {
                assert(el1[j] == el0[j]);
                assert(bs0[index]@[j] == el0[j]);
            }
        }
        assert(Self::buckets_wf(bs1, capacity)) by {
            assert forall|i2: int, j: int|
                0 <= i2 < bs1.len() && 0 <= j < bs1[i2]@.len() implies Self::bucket_of(
                (#[trigger] bs1[i2]@[j]).0.key_model(),
                capacity,
            ) == i2 by {
                if i2 != index {
                    assert(bs1[i2] == bs0[i2]);
                }
            }
            assert forall|i2: int, j1: int, j2: int|
                0 <= i2 < bs1.len() && 0 <= j1 < j2 < bs1[i2]@.len() implies (
            #[trigger] bs1[i2]@[j1]).0.key_model() != (#[trigger] bs1[i2]@[j2]).0.key_model() by {
                if i2 != index {
                    assert(bs1[i2] == bs0[i2]);
                }
            }
        }
        // The old bucket finds `km` exactly when the scan stopped short.
        Self::lemma_slot_find_unique(el0, km);
        if appended {
            assert(Self::slot_find(el0, km) is None);
        } else {
            assert(Self::slot_find(el0, km) == Some(el0[i].1));
        }
        assert(appended == !Self::buckets_map(bs0, capacity).contains_key(km));
        // Pointwise, the new array holds the old map plus the new binding.
        assert forall|m: Seq<char>|
            #[trigger] Self::buckets_map(bs1, capacity).contains_key(m) == Self::buckets_map(
                bs0,
                capacity,
            ).insert(km, value).contains_key(m) && (Self::buckets_map(bs1, capacity).contains_key(m)
                ==> Self::buckets_map(bs1, capacity)[m] == Self::buckets_map(bs0, capacity).insert(
                km,
                value,
            )[m]) by {
            let bi = Self::bucket_of(m, capacity);
            if bi != index {
                assert(bs1[bi] == bs0[bi]);
                assert(m != km);
            } else {
                Self::lemma_slot_find_unique(el0, m);
                Self::lemma_slot_find_unique(el1, m);
                if m == km {
                    assert(el1[i].0.key_model() == m);
                    assert(Self::slot_find(el1, m) == Some(value));
                } else {
                    if Self::slot_find(el0, m) is Some {
                        let j = choose|j: int|
                            0 <= j < el0.len() && (#[trigger] el0[j]).0.key_model() == m;
                        assert(el1[j] == el0[j]);
                        assert(Self::slot_find(el1, m) == Some(el0[j].1));
                    } else {
                        if Self::slot_find(el1, m) is Some {
                            let j = choose|j: int|
                                0 <= j < el1.len() && (#[trigger] el1[j]).0.key_model() == m;
                            assert(j < el0.len() && (appended || j != i));
                            assert(el0[j] == el1[j]);
                        }
                    }
                }
            }
        }
        assert(Self::buckets_map(bs1, capacity) =~= Self::buckets_map(bs0, capacity).insert(
            km,
            value,
        ));
    }

    /// A bucket's map holds exactly the contents of its entries.
    proof fn lemma_slot_map_contains(b: Seq<(K, V)>, m: Seq<char>)
        ensures
            Self::slot_map(b).contains_key(m) == (exists|j: int|
                0 <= j < b.len() && (#[trigger] b[j]).0.key_model() == m),
        decreases b.len(),
    {
        if b.len() > 0 {
            Self::lemma_slot_map_contains(b.drop_last(), m);
            if Self::slot_map(b).contains_key(m) {
                if b.last().0.key_model() == m {
                    assert(b[b.len() - 1].0.key_model() == m);
                } else {
                    let j = choose|j: int|
                        0 <= j < b.len() - 1 && (#[trigger] b.drop_last()[j]).0.key_model() == m;
                    assert(b[j].0.key_model() == m);
                }
            }
            if exists|j: int| 0 <= j < b.len() && (#[trigger] b[j]).0.key_model() == m {
                let j = choose|j: int| 0 <= j < b.len() && (#[trigger] b[j]).0.key_model() == m;
                if j < b.len() - 1 {
                    assert(b.drop_last()[j].0.key_model() == m);
                }
            }
        }
    }

    /// When exactly one bucket holds `m`, the combined map takes the
    /// binding from it.
    proof fn lemma_all_map_get(bs: Seq<Vec<(K, V)>>, m: Seq<char>, j: int)
        requires
            0 <= j < bs.len(),
            Self::slot_map(bs[j]@).contains_key(m),
            forall|j2: int|
                0 <= j2 < bs.len() && Self::slot_map((#[trigger] bs[j2])@).contains_key(m) ==> j2
                    == j,
        ensures
            Self::all_map(bs).contains_key(m),
            Self::all_map(bs)[m] == Self::slot_map(bs[j]@)[m],
        decreases bs.len(),
    {
        if j == bs.len() - 1 {
        } else {
            assert(!Self::slot_map(bs[bs.len() - 1]@).contains_key(m));
            let prefix = bs.drop_last();
            assert(prefix[j] == bs[j]);
            assert forall|j2: int|
                0 <= j2 < prefix.len() && Self::slot_map((#[trigger] prefix[j2])@).contains_key(
                    m,
                ) implies j2 == j by {
                assert(prefix[j2] == bs[j2]);
            }
            Self::lemma_all_map_get(prefix, m, j);
        }
    }

    /// A content held by no bucket is absent from the combined map.
    proof fn lemma_all_map_absent(bs: Seq<Vec<(K, V)>>, m: Seq<char>)
        requires
            forall|j: int| 0 <= j < bs.len() ==> !Self::slot_map((#[trigger] bs[j])@).contains_key(m),
        ensures
            !Self::all_map(bs).contains_key(m),
        decreases bs.len(),
    {
        if bs.len() > 0 {
            let prefix = bs.drop_last();
            assert forall|j: int|
                0 <= j < prefix.len() implies !Self::slot_map(
                (#[trigger] prefix[j])@,
            ).contains_key(m) by {
                assert(prefix[j] == bs[j]);
            }
            Self::lemma_all_map_absent(prefix, m);
            assert(!Self::slot_map(bs[bs.len() - 1]@).contains_key(m));
        }
    }

    /// For well-placed buckets, looking a content up in its own bucket
    /// agrees with gathering every entry of every bucket.
    proof fn lemma_wf_map_is_all_map(bs: Seq<Vec<(K, V)>>, capacity: int)
        requires
            capacity >= 1,
            Self::buckets_wf(bs, capacity),
        ensures
            Self::buckets_map(bs, capacity) == Self::all_map(bs),
    {
        assert forall|m: Seq<char>|
            #[trigger] Self::buckets_map(bs, capacity).contains_key(m) == Self::all_map(
                bs,
            ).contains_key(m) && (Self::buckets_map(bs, capacity).contains_key(m)
                ==> Self::buckets_map(bs, capacity)[m] == Self::all_map(bs)[m]) by {
            let bi = Self::bucket_of(m, capacity);
            assert(0 <= bi < bs.len());
            assert(Self::slot_unique(bs[bi]@)) by {
                assert forall|j1: int, j2: int| 0 <= j1 < j2 < bs[bi]@.len() implies (
                #[trigger] bs[bi]@[j1]).0.key_model() != (#[trigger] bs[bi]@[j2]).0.key_model() by {}
            }
            Self::lemma_slot_find_unique(bs[bi]@, m);
            Self::lemma_slot_find_is_slot_map(bs[bi]@, m);
            Self::lemma_slot_map_contains(bs[bi]@, m);
            assert forall|j: int|
                0 <= j < bs.len() && Self::slot_map((#[trigger] bs[j])@).contains_key(
                    m,
                ) implies j == bi by {
                Self::lemma_slot_map_contains(bs[j]@, m);
                let jj = choose|jj: int|
                    0 <= jj < bs[j]@.len() && (#[trigger] bs[j]@[jj]).0.key_model() == m;
                assert(Self::bucket_of(bs[j]@[jj].0.key_model(), capacity) == j);
            }
            if Self::slot_map(bs[bi]@).contains_key(m) {
                Self::lemma_all_map_get(bs, m, bi);
            } else {
                assert forall|j: int|
                    0 <= j < bs.len() implies !Self::slot_map(
                    (#[trigger] bs[j])@,
                ).contains_key(m) by {
                    if Self::slot_map(bs[j]@).contains_key(m) {
                        assert(j == bi);
                    }
                }
                Self::lemma_all_map_absent(bs, m);
            }
        }
        assert(Self::buckets_map(bs, capacity) =~= Self::all_map(bs));
    }

    /// When the entry count has reached three quarters of the capacity,
    /// doubles the capacity and rehashes every entry into a fresh bucket
    /// array; otherwise does nothing. The stored map never changes.
    #[verifier::loop_isolation(false)]
    fn resize(&mut self)
        requires
            old(self).wf(),
            old(self).size <= usize::MAX / 4,
        ensures
            final(self).wf(),
            final(self).as_map() == old(self).as_map(),
            final(self).size == old(self).size,
            final(self).capacity as int == (if old(self).size >= old(self).capacity - old(
                self,
            ).capacity / 4 {
                2 * old(self).capacity as int
            } else {
                old(self).capacity as int
            }),
    {
        if self.size < self.capacity - self.capacity / 4 {
            return ;
        }
        proof {
            assert(self.capacity / 4 + self.capacity / 2 <= self.capacity);
            assert(self.capacity / 2 <= self.capacity - self.capacity / 4);
            assert(self.capacity <= usize::MAX / 2);
        }
        let ghost bs0 = self.buckets@;
        let ghost ocap = self.capacity as int;
        let ghost msize = old(self).size;
        proof {
            Self::lemma_wf_map_is_all_map(bs0, ocap);
        }
        self.capacity = self.capacity * 2;
        let ghost ncap = self.capacity as int;
        let new_buckets = Self::new_buckets(self.capacity);
        let mut old_buckets = new_buckets;
        core::mem::swap(&mut self.buckets, &mut old_buckets);
        proof {
            assert forall|m: Seq<char>|
                Self::slot_find(
                    self.buckets@[Self::bucket_of(m, ncap)]@,
                    m,
                ) is None by {
                assert(0 <= Self::bucket_of(m, ncap) < ncap);
            }
            assert(Self::buckets_map(self.buckets@, ncap) =~= Map::<Seq<char>, V>::empty());
            assert(old_buckets@ =~= bs0.subrange(0, old_buckets@.len() as int));
            assert(Self::buckets_map(self.buckets@, ncap).union_prefer_right(
                Self::all_map(old_buckets@),
            ) =~= Self::all_map(bs0));
        }
        while old_buckets.len() > 0
            invariant
                self.capacity == ncap,
                self.size == msize,
                Self::buckets_wf(self.buckets@, ncap),
                old_buckets@ == bs0.subrange(0, old_buckets@.len() as int),
                old_buckets@.len() <= bs0.len(),
                Self::buckets_map(self.buckets@, ncap).union_prefer_right(
                    Self::all_map(old_buckets@),
                ) == Self::all_map(bs0),
                forall|m: Seq<char>|
                    #[trigger] Self::buckets_map(self.buckets@, ncap).contains_key(m)
                        ==> !Self::all_map(old_buckets@).contains_key(m),
                Self::sum_lens(self.buckets@) + Self::sum_lens(old_buckets@) == Self::sum_lens(
                    bs0,
                ),
            decreases old_buckets@.len(),
        {
            let ghost obs_pre = old_buckets@;
            let ghost bucket_index = obs_pre.len() - 1;
            let mut el = old_buckets.pop().unwrap();
            let ghost el_full = el@;
            proof {
                assert(obs_pre.drop_last() =~= bs0.subrange(0, obs_pre.len() - 1));
                assert(old_buckets@ == bs0.subrange(0, old_buckets@.len() as int));
                assert(el == bs0[bucket_index]);
                assert(Self::slot_unique(el_full)) by {
                    assert forall|j1: int, j2: int| 0 <= j1 < j2 < el_full.len() implies (
                    #[trigger] el_full[j1]).0.key_model() != (
                    #[trigger] el_full[j2]).0.key_model() by {
                        assert(bs0[bucket_index]@[j1] == el_full[j1]);
                        assert(bs0[bucket_index]@[j2] == el_full[j2]);
                    }
                }
                // Entries of this bucket are absent from the buckets still waiting.
                assert forall|m: Seq<char>|
                    #[trigger] Self::slot_map(el_full).contains_key(m)
                        implies !Self::all_map(old_buckets@).contains_key(m) by {
                    {
                        Self::lemma_slot_map_contains(el_full, m);
                        let jj = choose|jj: int|
                            0 <= jj < el_full.len() && (#[trigger] el_full[jj]).0.key_model() == m;
                        assert(Self::bucket_of(m, ocap) == bucket_index);
                        assert forall|j: int|
                            0 <= j < old_buckets@.len() implies !Self::slot_map(
                            (#[trigger] old_buckets@[j])@,
                        ).contains_key(m) by {
                            if Self::slot_map(old_buckets@[j]@).contains_key(m) {
                                Self::lemma_slot_map_contains(old_buckets@[j]@, m);
                                let j2 = choose|j2: int|
                                    0 <= j2 < old_buckets@[j]@.len() && (
                                    #[trigger] old_buckets@[j]@[j2]).0.key_model() == m;
                                assert(old_buckets@[j] == bs0[j]);
                                assert(Self::bucket_of(m, ocap) == j);
                            }
                        }
                        Self::lemma_all_map_absent(old_buckets@, m);
                    }
                }
            }
            while el.len() > 0
                invariant
                    self.capacity == ncap,
                    self.size == msize,
                    Self::buckets_wf(self.buckets@, ncap),
                    Self::slot_unique(el@),
                    Self::buckets_map(self.buckets@, ncap).union_prefer_right(
                        Self::all_map(old_buckets@).union_prefer_right(Self::slot_map(el@)),
                    ) == Self::all_map(bs0),
                    forall|m: Seq<char>|
                        #[trigger] Self::buckets_map(self.buckets@, ncap).contains_key(m)
                            ==> !Self::all_map(old_buckets@).contains_key(m) && !Self::slot_map(
                            el@,
                        ).contains_key(m),
                    forall|m: Seq<char>|
                        #[trigger] Self::slot_map(el@).contains_key(m) ==> !Self::all_map(
                            old_buckets@,
                        ).contains_key(m),
                    Self::sum_lens(self.buckets@) + Self::sum_lens(old_buckets@) + el@.len()
                        == Self::sum_lens(bs0),
                decreases el@.len(),
            {
                let ghost el_pre = el@;
                let ghost new_pre = self.buckets@;
                let entry = el.pop().unwrap();
                let (k, v) = entry;
                let ghost km = k.key_model();
                proof {
                    assert(Self::slot_map(el_pre) == Self::slot_map(el@).insert(km, v));
                    assert(Self::slot_map(el_pre).contains_key(km));
                    assert(!Self::slot_map(el@).contains_key(km)) by {
                        Self::lemma_slot_map_contains(el@, km);
                        Self::lemma_slot_map_contains(el_pre, km);
                        if exists|j: int|
                            0 <= j < el@.len() && (#[trigger] el@[j]).0.key_model() == km {
                            let j = choose|j: int|
                                0 <= j < el@.len() && (#[trigger] el@[j]).0.key_model() == km;
                            assert(el_pre[j].0.key_model() == km);
                            assert(el_pre[el_pre.len() - 1].0.key_model() == km);
                        }
                    }
                    assert(!Self::buckets_map(new_pre, ncap).contains_key(km));
                    assert forall|m: Seq<char>|
                        #[trigger] Self::slot_map(el@).contains_key(m) implies !Self::all_map(
                        old_buckets@,
                    ).contains_key(m) by {
                        assert(Self::slot_map(el_pre).contains_key(m));
                    }
                }
                let appended = Self::buckets_insert(&mut self.buckets, self.capacity, k, v);
                proof {
                    assert(appended);
                    let new_map = Self::buckets_map(self.buckets@, ncap);
                    let old_map = Self::buckets_map(new_pre, ncap);
                    assert(new_map == old_map.insert(km, v));
                    assert(Self::buckets_map(self.buckets@, ncap).union_prefer_right(
                        Self::all_map(old_buckets@).union_prefer_right(Self::slot_map(el@)),
                    ) =~= Self::all_map(bs0));
                }
            }
            proof {
                assert(Self::slot_map(el@) =~= Map::<Seq<char>, V>::empty());
                assert(Self::all_map(old_buckets@).union_prefer_right(Self::slot_map(el@))
                    =~= Self::all_map(old_buckets@));
                assert(Self::buckets_map(self.buckets@, ncap).union_prefer_right(
                    Self::all_map(old_buckets@),
                ) == Self::all_map(bs0));
            }
        }
        proof {
            assert(Self::all_map(old_buckets@) =~= Map::<Seq<char>, V>::empty());
            assert(Self::buckets_map(self.buckets@, ncap) =~= Self::buckets_map(
                self.buckets@,
                ncap,
            ).union_prefer_right(Self::all_map(old_buckets@)));
        }
    }

    /// Inserts `key` with `value`. When the key is already present its
    /// value is overwritten and the size does not change; otherwise the
    /// entry is appended to its bucket and the size grows by one. When the
    /// size has reached three quarters of the capacity beforehand, the
    /// capacity doubles first; it never shrinks.
    pub fn insert(&mut self, key: K, value: V)
        requires
            old(self).wf(),
            old(self).size <= usize::MAX / 4,
        ensures
            final(self).wf(),
            final(self).as_map() == old(self).as_map().insert(key.key_model(), value),
            final(self).size == old(self).size + (if old(self).as_map().contains_key(
                key.key_model(),
            ) {
                0int
            } else {
                1int
            }),
            final(self).capacity as int == (if old(self).size >= old(self).capacity - old(
                self,
            ).capacity / 4 {
                2 * old(self).capacity as int
            } else {
                old(self).capacity as int
            }),
    {
        self.resize();
        if Self::buckets_insert(&mut self.buckets, self.capacity, key, value) {
            self.size = self.size + 1;
        }
    }

    /// Returns the value stored for `key`, or `None` when the key is
    /// absent. Never changes the table.
    #[verifier::loop_isolation(false)]
    pub fn get(&self, key: &K) -> (r: Option<&V>)
        requires
            self.wf(),
        ensures
            match r {
                Some(v) => self.as_map().contains_key(key.key_model()) && *v == self.as_map()[key.key_model()],
                None => !self.as_map().contains_key(key.key_model()),
            },
    {
        let ghost km = key.key_model();
        let index = Self::hash_index(key, self.capacity);
        let el = &self.buckets[index];
        proof {
            assert forall|j1: int, j2: int| 0 <= j1 < j2 < el@.len() implies (
            #[trigger] el@[j1]).0.key_model() != (#[trigger] el@[j2]).0.key_model() by {
                assert(self.buckets@[index as int]@[j1] == el@[j1]);
                assert(self.buckets@[index as int]@[j2] == el@[j2]);
            }
            Self::lemma_slot_find_unique(el@, km);
        }
        let mut i: usize = 0;
        let el_len = el.len();
        while i < el_len
            invariant
                el_len == el@.len(),
                i <= el_len,
                km == key.key_model(),
                forall|j: int| 0 <= j < i ==> (#[trigger] el@[j]).0.key_model() != km,
            decreases el_len - i,
        {
            if el[i].0.key_eq(key) {
                return Some(&el[i].1);
            }
            i += 1;
        }
        None
    }

    /// Removes the entry for `key` and returns its value, or returns
    /// `None` and leaves the table unchanged when the key is absent.
    /// The capacity never shrinks.
    #[verifier::loop_isolation(false)]
    pub fn remove(&mut self, key: &K) -> (r: Option<V>)
        requires
            old(self).wf(),
        ensures
            final(self).wf(),
            final(self).as_map() == old(self).as_map().remove(key.key_model()),
            r == (if old(self).as_map().contains_key(key.key_model()) {
                Some(old(self).as_map()[key.key_model()])
            } else {
                None::<V>
            }),
            final(self).size == old(self).size - (if old(self).as_map().contains_key(
                key.key_model(),
            ) {
                1int
            } else {
                0int
            }),
            final(self).capacity == old(self).capacity,
    {
        let ghost bs0 = self.buckets@;
        let ghost km = key.key_model();
        let ghost capacity = self.capacity as int;
        let index = Self::hash_index(key, self.capacity);
        let mut el: Vec<(K, V)> = Vec::new();
        core::mem::swap(&mut self.buckets[index], &mut el);
        let ghost el0 = el@;
        proof {
            assert(Self::slot_unique(el0)) by {
                assert forall|j1: int, j2: int| 0 <= j1 < j2 < el0.len() implies (
                #[trigger] el0[j1]).0.key_model() != (#[trigger] el0[j2]).0.key_model() by {
                    assert(bs0[index as int]@[j1] == el0[j1]);
                    assert(bs0[index as int]@[j2] == el0[j2]);
                }
            }
            Self::lemma_slot_find_unique(el0, km);
        }
        let ghost mid = self.buckets@;
        let ghost elv0 = el;
        let mut i: usize = 0;
        let el_len = el.len();
        while i < el_len
            invariant
                self.buckets@ == mid,
                self.size == old(self).size,
                self.capacity == old(self).capacity,
                el == elv0,
                el@ == el0,
                el_len == el0.len(),
                i <= el_len,
                forall|j: int| 0 <= j < i ==> (#[trigger] el0[j]).0.key_model() != km,
            decreases el_len - i,
        {
            if el[i].0.key_eq(key) {
                let entry = el.remove(i);
                self.buckets[index] = el;
                proof {
                    el0.remove_ensures(i as int);
                    assert(self.buckets@ =~= bs0.update(index as int, self.buckets@[index as int]));
                    assert(self.buckets@[index as int]@.len() == el0.len() - 1);
                    Self::lemma_finish_remove(bs0, capacity, index as int, el0, self.buckets@, km, i as int);
                    Self::lemma_sum_update(bs0, index as int, self.buckets@[index as int]);
                    Self::lemma_sum_bound(bs0, index as int);
                }
                self.size = self.size - 1;
                return Some(entry.1);
            }
            i += 1;
        }
        self.buckets[index] = el;
        proof {
            assert(self.buckets@ =~= bs0);
            assert(Self::slot_find(el0, km) is None);
            assert(!Self::buckets_map(bs0, capacity).contains_key(km));
            assert(Self::buckets_map(bs0, capacity) =~= Self::buckets_map(bs0, capacity).remove(
                km,
            ));
        }
        None
    }

    /// After removing the entry at position `i` of the bucket `km` hashes
    /// to, the bucket array holds the old map without `km`.
    proof fn lemma_finish_remove(
        bs0: Seq<Vec<(K, V)>>,
        capacity: int,
        index: int,
        el0: Seq<(K, V)>,
        bs1: Seq<Vec<(K, V)>>,
        km: Seq<char>,
        i: int,
    )
        requires
            capacity >= 1,
            Self::buckets_wf(bs0, capacity),
            0 <= index < bs0.len(),
            el0 == bs0[index]@,
            index == Self::bucket_of(km, capacity),
            0 <= i < el0.len(),
            el0[i].0.key_model() == km,
            forall|j: int| 0 <= j < i ==> (#[trigger] el0[j]).0.key_model() != km,
            bs1 =~= bs0.update(index, bs1[index]),
            bs1[index]@ =~= el0.remove(i),
        ensures
            Self::buckets_wf(bs1, capacity),
            Self::buckets_map(bs1, capacity) == Self::buckets_map(bs0, capacity).remove(km),
            Self::buckets_map(bs0, capacity).contains_key(km),
            Self::buckets_map(bs0, capacity)[km] == el0[i].1,
    {
        let el1 = bs1[index]@;
        el0.remove_ensures(i);
        assert(Self::slot_unique(el0)) by {
            assert forall|j1: int, j2: int| 0 <= j1 < j2 < el0.len() implies (
            #[trigger] el0[j1]).0.key_model() != (#[trigger] el0[j2]).0.key_model() by {
                assert(bs0[index]@[j1] == el0[j1]);
                assert(bs0[index]@[j2] == el0[j2]);
            }
        }
        Self::lemma_slot_find_unique(el0, km);
        assert(Self::buckets_map(bs0, capacity).contains_key(km));
        assert(Self::buckets_map(bs0, capacity)[km] == el0[i].1);
        assert forall|j1: int, j2: int| 0 <= j1 < j2 < el1.len() implies (
        #[trigger] el1[j1]).0.key_model() != (#[trigger] el1[j2]).0.key_model() by {
            let o1: int = if j1 < i { j1 } else { j1 + 1 };
            let o2: int = if j2 < i { j2 } else { j2 + 1 };
            assert(el1[j1] == el0[o1]);
            assert(el1[j2] == el0[o2]);
        }
        assert(Self::slot_unique(el1));
        assert(Self::buckets_wf(bs1, capacity)) by {
            assert forall|i2: int, j: int|
                0 <= i2 < bs1.len() && 0 <= j < bs1[i2]@.len() implies Self::bucket_of(
                (#[trigger] bs1[i2]@[j]).0.key_model(),
                capacity,
            ) == i2 by {
                if i2 != index {
                    assert(bs1[i2] == bs0[i2]);
                } else {
                    let o: int = if j < i { j } else { j + 1 };
                    assert(el1[j] == el0[o]);
                    assert(bs0[index]@[o] == el0[o]);
                }
            }
            assert forall|i2: int, j1: int, j2: int|
                0 <= i2 < bs1.len() && 0 <= j1 < j2 < bs1[i2]@.len() implies (
            #[trigger] bs1[i2]@[j1]).0.key_model() != (#[trigger] bs1[i2]@[j2]).0.key_model() by {
                if i2 != index {
                    assert(bs1[i2] == bs0[i2]);
                }
            }
        }
        assert forall|m: Seq<char>|
            #[trigger] Self::buckets_map(bs1, capacity).contains_key(m) == Self::buckets_map(
                bs0,
                capacity,
            ).remove(km).contains_key(m) && (Self::buckets_map(bs1, capacity).contains_key(m)
                ==> Self::buckets_map(bs1, capacity)[m] == Self::buckets_map(bs0, capacity).remove(
                km,
            )[m]) by {
            let bi = Self::bucket_of(m, capacity);
            if bi != index {
                assert(bs1[bi] == bs0[bi]);
                assert(m != km);
            } else {
                Self::lemma_slot_find_unique(el0, m);
                Self::lemma_slot_find_unique(el1, m);
                if m == km {
                    if Self::slot_find(el1, m) is Some {
                        let j = choose|j: int|
                            0 <= j < el1.len() && (#[trigger] el1[j]).0.key_model() == m;
                        let o: int = if j < i { j } else { j + 1 };
                        assert(el1[j] == el0[o]);
                        assert(o != i);
                        assert(el0[o].0.key_model() != el0[i].0.key_model());
                    }
                } else {
                    if Self::slot_find(el0, m) is Some {
                        let j = choose|j: int|
                            0 <= j < el0.len() && (#[trigger] el0[j]).0.key_model() == m;
                        assert(j != i);
                        let j1: int = if j < i { j } else { j - 1 };
                        assert(el1[j1] == el0[j]);
                        assert(Self::slot_find(el1, m) == Some(el0[j].1));
                    } else {
                        if Self::slot_find(el1, m) is Some {
                            let j = choose|j: int|
                                0 <= j < el1.len() && (#[trigger] el1[j]).0.key_model() == m;
                            let o: int = if j < i { j } else { j + 1 };
                            assert(el1[j] == el0[o]);
                        }
                    }
                }
            }
        }
        assert(Self::buckets_map(bs1, capacity) =~= Self::buckets_map(bs0, capacity).remove(km));
    }

    /// The map after binding, in order, every pair of `entries` on top of `m`.
    pub open spec fn insert_all(m: Map<Seq<char>, V>, entries: Seq<(Seq<char>, V)>) -> Map<
        Seq<char>,
        V,
    >
        decreases entries.len(),
    {
        if entries.len() == 0 {
            m
        } else {
            Self::insert_all(m, entries.drop_last()).insert(entries.last().0, entries.last().1)
        }
    }

    /// After any sequence of inserts whose key contents are pairwise
    /// distinct, every inserted key is still bound to its own value —
    /// however many resizes happened along the way, since `insert`
    /// always turns the table's map into `insert` of the old map.
    pub proof fn lemma_distinct_inserts_all_present(
        m: Map<Seq<char>, V>,
        entries: Seq<(Seq<char>, V)>,
        i: int,
    )
        requires
            0 <= i < entries.len(),
            forall|i1: int, i2: int|
                0 <= i1 < i2 < entries.len() ==> (#[trigger] entries[i1]).0 != (
                #[trigger] entries[i2]).0,
        ensures
            Self::insert_all(m, entries).contains_key(entries[i].0),
            Self::insert_all(m, entries)[entries[i].0] == entries[i].1,
        decreases entries.len(),
    {
        let prefix = entries.drop_last();
        if i == entries.len() - 1 {
        } else {
            assert forall|i1: int, i2: int|
                0 <= i1 < i2 < prefix.len() implies (#[trigger] prefix[i1]).0 != (
            #[trigger] prefix[i2]).0 by {
                assert(prefix[i1] == entries[i1]);
                assert(prefix[i2] == entries[i2]);
            }
            Self::lemma_distinct_inserts_all_present(m, prefix, i);
            assert(prefix[i] == entries[i]);
            assert(entries[i].0 != entries[entries.len() - 1].0);
        }
    }

    /// Writing a key twice keeps only the second value, and the second
    /// write hits a key that is already present — so, by the contract of
    /// `insert`, the second insert leaves `size` unchanged.
    pub proof fn lemma_insert_overwrite(m: Map<Seq<char>, V>, k: Seq<char>, v1: V, v2: V)
        ensures
            m.insert(k, v1).insert(k, v2) == m.insert(k, v2),
            m.insert(k, v1).contains_key(k),
            m.insert(k, v1).insert(k, v2)[k] == v2,
    {
        assert(m.insert(k, v1).insert(k, v2) =~= m.insert(k, v2));
    }

    /// Inserting a key and then removing it leaves the key absent — so a
    /// following `get` signals absence, and, by the contract of `remove`,
    /// the removal decrements `size` by exactly one.
    pub proof fn lemma_insert_then_remove(m: Map<Seq<char>, V>, k: Seq<char>, v: V)
        ensures
            m.insert(k, v).contains_key(k),
            !m.insert(k, v).remove(k).contains_key(k),
            m.insert(k, v).remove(k) == m.remove(k),
    {
        assert(m.insert(k, v).remove(k) =~= m.remove(k));
    }

    /// Removing an absent key changes nothing — so, by the contract of
    /// `remove`, it returns `None` and leaves `size` unchanged.
    pub proof fn lemma_remove_absent(m: Map<Seq<char>, V>, k: Seq<char>)
        requires
            !m.contains_key(k),
        ensures
            m.remove(k) == m,
    {
        assert(m.remove(k) =~= m);
    }

    /// Two distinct keys are both retrievable with their own values after
    /// both are inserted, in either relative hash position — in
    /// particular when their contents hash to the same bucket index.
    pub proof fn lemma_two_keys_both_present(
        m: Map<Seq<char>, V>,
        k1: Seq<char>,
        v1: V,
        k2: Seq<char>,
        v2: V,
    )
        requires
            k1 != k2,
        ensures
            m.insert(k1, v1).insert(k2, v2).contains_key(k1),
            m.insert(k1, v1).insert(k2, v2)[k1] == v1,
            m.insert(k1, v1).insert(k2, v2).contains_key(k2),
            m.insert(k1, v1).insert(k2, v2)[k2] == v2,
    {
    }

    /// One step of `insert`, as its contract describes it: how the map,
    /// the size and the capacity of the table after the call relate to
    /// the table before it.
    pub open spec fn insert_step(pre: Self, post: Self, k: Seq<char>, v: V) -> bool {
        &&& post.as_map() == pre.as_map().insert(k, v)
        &&& post.size == pre.size + (if pre.as_map().contains_key(k) {
            0int
        } else {
            1int
        })
        &&& post.capacity as int == (if pre.size >= pre.capacity - pre.capacity / 4 {
            2 * pre.capacity as int
        } else {
            pre.capacity as int
        })
    }

    /// From a fresh table with four buckets, inserting four distinct keys
    /// leaves the first three inserts at capacity 4 and doubles the
    /// capacity to 8 on the fourth, once the size has reached three
    /// quarters of the capacity; all four keys remain bound to their
    /// values.
    pub proof fn lemma_growth_at_three_quarters(
        t0: Self,
        t1: Self,
        t2: Self,
        t3: Self,
        t4: Self,
        k1: Seq<char>,
        k2: Seq<char>,
        k3: Seq<char>,
        k4: Seq<char>,
        v1: V,
        v2: V,
        v3: V,
        v4: V,
    )
        requires
            t0.capacity == 4,
            t0.size == 0,
            t0.as_map() == Map::<Seq<char>, V>::empty(),
            k1 != k2 && k1 != k3 && k1 != k4 && k2 != k3 && k2 != k4 && k3 != k4,
            Self::insert_step(t0, t1, k1, v1),
            Self::insert_step(t1, t2, k2, v2),
            Self::insert_step(t2, t3, k3, v3),
            Self::insert_step(t3, t4, k4, v4),
        ensures
            t1.capacity == 4 && t2.capacity == 4 && t3.capacity == 4,
            t4.capacity == 8,
            t4.size == 4,
            t4.as_map().contains_key(k1) && t4.as_map()[k1] == v1,
            t4.as_map().contains_key(k2) && t4.as_map()[k2] == v2,
            t4.as_map().contains_key(k3) && t4.as_map()[k3] == v3,
            t4.as_map().contains_key(k4) && t4.as_map()[k4] == v4,
    {
        assert(!t0.as_map().contains_key(k1));
        assert(!t1.as_map().contains_key(k2));
        assert(!t2.as_map().contains_key(k3));
        assert(!t3.as_map().contains_key(k4));
    }
}

} // verus!
