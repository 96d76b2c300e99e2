//! A fixed-capacity, open-addressing hash table.
//!
//! The table owns a fixed-length array of optional key-value slots and a
//! caller-supplied hash function. Collisions are resolved by circular linear
//! probing: the scan runs forward from the hashed index to the end of the
//! array, then wraps around to the start. There is no resizing and no
//! deletion.

use vstd::prelude::*;
use vstd::std_specs::cmp::PartialEqSpec;

verus! {

/// One key-value entry held by an occupied slot.
#[derive(PartialEq)]
pub struct KeyValuePair<K, V> where K: PartialEq {
    pub key: K,
    pub value: V,
}

impl<K, V> KeyValuePair<K, V> where K: PartialEq {
    pub fn new(key: K, value: V) -> (pair: KeyValuePair<K, V>)
        ensures
            pair.key == key,
            pair.value == value,
    {
        KeyValuePair { key, value }
    }
}

/// The ways `insert` can fail. `lookup` never fails: a missing key is an
/// ordinary `None` result.
#[derive(Clone, Copy, Debug, PartialEq, Eq)]
pub enum HashTableErrors {
    /// No empty slot was left after a full circular scan.
    IsFull,
    /// The hash function returned an index outside the slot array.
    HashFunctionRange,
}

/// A fixed-capacity associative container with linear-probing collision
/// resolution. The capacity is set once at construction and never changes;
/// entries are never removed.
pub struct HashTable<K, V, F> where K: PartialEq, F: Fn(&K) -> usize {
    pub hash_function: F,
    pub array: Vec<Option<KeyValuePair<K, V>>>,
}

impl<K, V, F> HashTable<K, V, F> where K: PartialEq, F: Fn(&K) -> usize {
    /// Number of slots; fixed for the lifetime of the table.
    pub open spec fn capacity(self) -> nat {
        self.array@.len()
    }

    /// The slot array as a sequence.
    pub open spec fn slots(self) -> Seq<Option<KeyValuePair<K, V>>> {
        self.array@
    }

    /// The hash function may be called on every key and, being pure, returns
    /// at most one value per key. Correctness of the table rests on this:
    /// `lookup` must recompute the index that `insert` used.
    pub open spec fn hash_fn_pure(f: F) -> bool {
        &&& forall|k: &K| #[trigger] call_requires(f, (k,))
        &&& forall|k: &K, r1: usize, r2: usize|
            #![trigger call_ensures(f, (k,), r1), call_ensures(f, (k,), r2)]
            call_ensures(f, (k,), r1) && call_ensures(f, (k,), r2) ==> r1 == r2
    }

    /// The value a pure hash function `f` assigns to `k`.
    pub open spec fn hash_value_of(f: F, k: K) -> usize {
        choose|r: usize| call_ensures(f, (&k,), r)
    }

    /// The index the table's own hash function assigns to `k`.
    pub open spec fn spec_hash(self, k: K) -> usize {
        Self::hash_value_of(self.hash_function, k)
    }

    /// A pure hash function's one possible result is `hash_value_of`.
    pub proof fn lemma_hash_value_of(f: F, k: K, r: usize)
        requires
            Self::hash_fn_pure(f),
            call_ensures(f, (&k,), r),
        ensures
            Self::hash_value_of(f, k) == r,
    {
        assert(call_ensures(f, (&k,), Self::hash_value_of(f, k)));
    }

    /// Equality on keys agrees with logical equality, so that the executable
    /// `==` used while probing decides exactly the equalities the contracts
    /// speak of.
    pub open spec fn keys_obey_eq() -> bool {
        &&& K::obeys_eq_spec()
        &&& forall|a: K, b: K| #[trigger] a.eq_spec(&b) <==> a == b
    }

    /// Slot `i` holds an entry for key `k`.
    pub open spec fn slot_has_key(self, i: int, k: K) -> bool {
        self.slots()[i] matches Some(entry) && entry.key == k
    }

    /// Some slot holds an entry for key `k`.
    pub open spec fn contains_key(self, k: K) -> bool {
        exists|i: int| 0 <= i < self.capacity() && #[trigger] self.slot_has_key(i, k)
    }

    /// Every stored key hashes inside the table and its home slot is
    /// occupied. The second part holds because an entry is only ever placed
    /// away from its home slot when the home slot is occupied, and no slot is
    /// ever emptied; it lets `lookup` answer `None` as soon as it sees an
    /// empty home slot.
    pub open spec fn inv(self) -> bool {
        forall|i: int|
            #![trigger self.slots()[i]]
            0 <= i < self.capacity() && self.slots()[i] is Some ==> {
                let k = self.slots()[i]->Some_0.key;
                &&& self.spec_hash(k) < self.capacity()
                &&& self.slots()[self.spec_hash(k) as int] is Some
            }
    }

    /// Well-formedness: the structural invariant, a pure hash function, and
    /// well-behaved key equality.
    pub open spec fn wf(self) -> bool {
        &&& self.inv()
        &&& Self::hash_fn_pure(self.hash_function)
        &&& Self::keys_obey_eq()
    }

    /// The first empty slot at index `lo` or after, below `hi`.
    pub open spec fn first_empty_in_range(self, lo: int, hi: int) -> Option<int>
        decreases hi - lo,
    {
        if lo >= hi {
            None
        } else if self.slots()[lo] is None {
            Some(lo)
        } else {
            self.first_empty_in_range(lo + 1, hi)
        }
    }

    /// The slot a colliding entry goes to: the first empty slot found
    /// scanning forward from `h` to the end of the array, then wrapping
    /// around from the start up to (but not including) `h`.
    pub open spec fn probe_first_empty(self, h: int) -> Option<int> {
        match self.first_empty_in_range(h, self.capacity() as int) {
            Some(j) => Some(j),
            None => self.first_empty_in_range(0, h),
        }
    }

    /// The first slot holding key `k` at index `lo` or after, below `hi`.
    pub open spec fn first_match_in_range(self, lo: int, hi: int, k: K) -> Option<int>
        decreases hi - lo,
    {
        if lo >= hi {
            None
        } else if self.slot_has_key(lo, k) {
            Some(lo)
        } else {
            self.first_match_in_range(lo + 1, hi, k)
        }
    }

    /// The slot `lookup` finds for key `k` hashing to `h`: the first match in
    /// forward-then-wrap probe order.
    pub open spec fn probe_first_match(self, h: int, k: K) -> Option<int> {
        match self.first_match_in_range(h, self.capacity() as int, k) {
            Some(j) => Some(j),
            None => self.first_match_in_range(0, h, k),
        }
    }

    /// What `lookup` returns for key `k`, as a value.
    pub open spec fn spec_lookup(self, k: K) -> Option<V> {
        match self.probe_first_match(self.spec_hash(k) as int, k) {
            Some(j) => Some(self.slots()[j]->Some_0.value),
            None => None,
        }
    }

    /// Characterizes `first_empty_in_range`: a found slot is the first empty
    /// one in the range; if none is found, the whole range is occupied.
    pub proof fn lemma_first_empty_in_range(self, lo: int, hi: int)
        ensures
            match self.first_empty_in_range(lo, hi) {
                Some(j) => {
                    &&& lo <= j < hi
                    &&& self.slots()[j] is None
                    &&& forall|t: int| lo <= t < j ==> self.slots()[t] is Some
                },
                None => forall|t: int| lo <= t < hi ==> self.slots()[t] is Some,
            },
        decreases hi - lo,
    {
        if lo < hi && !(self.slots()[lo] is None) {
            self.lemma_first_empty_in_range(lo + 1, hi);
        }
    }

    /// Characterizes `first_match_in_range`: a found slot is the first one
    /// holding `k` in the range; if none is found, no slot in the range
    /// holds `k`.
    pub proof fn lemma_first_match_in_range(self, lo: int, hi: int, k: K)
        ensures
            match self.first_match_in_range(lo, hi, k) {
                Some(j) => {
                    &&& lo <= j < hi
                    &&& self.slot_has_key(j, k)
                    &&& forall|t: int| lo <= t < j ==> !self.slot_has_key(t, k)
                },
                None => forall|t: int| lo <= t < hi ==> !self.slot_has_key(t, k),
            },
        decreases hi - lo,
    {
        if lo < hi && !self.slot_has_key(lo, k) {
            self.lemma_first_match_in_range(lo + 1, hi, k);
        }
    }

    /// Creates a table with `size` empty slots and the given hash function.
    ///
    /// A table built with `size == 0` has no valid slot index, so every
    /// insertion fails.
    pub fn new(hash_function: F, size: usize) -> (table: HashTable<K, V, F>)
        ensures
            table.capacity() == size,
            forall|i: int| 0 <= i < size ==> table.slots()[i] is None,
            table.hash_function == hash_function,
    {
        let mut array: Vec<Option<KeyValuePair<K, V>>> = Vec::with_capacity(size);
        let mut filled: usize = 0;
        while filled < size
            invariant
                filled <= size,
                array@.len() == filled,
                forall|i: int| 0 <= i < filled ==> array@[i] is None,
            decreases size - filled,
        {
            array.push(None);
            filled = filled + 1;
        }
        HashTable { hash_function, array }
    }

    /// How one call of `insert` relates the table after (`post`) to the table
    /// before (`pre`), with `h` the hash of the inserted key:
    /// - `h` out of range: `HashFunctionRange`, table unchanged;
    /// - home slot `h` empty: the entry goes exactly there;
    /// - home slot holds an entry with an equal key: that entry is
    ///   overwritten in place;
    /// - home slot holds a different key: the entry goes to the first empty
    ///   slot in forward-then-wrap probe order, or, when no slot is empty,
    ///   `IsFull` and the table is unchanged.
    pub open spec fn insert_effect(
        pre: Self,
        post: Self,
        key: K,
        value: V,
        r: Result<(), HashTableErrors>,
    ) -> bool {
        let h = pre.spec_hash(key) as int;
        &&& post.hash_function == pre.hash_function
        &&& if h >= pre.capacity() {
            &&& r == Err::<(), HashTableErrors>(HashTableErrors::HashFunctionRange)
            &&& post.slots() == pre.slots()
        } else if pre.slots()[h] is None || pre.slots()[h]->Some_0.key == key {
            &&& r == Ok::<(), HashTableErrors>(())
            &&& post.slots() == pre.slots().update(h, Some(KeyValuePair { key, value }))
        } else {
            match pre.probe_first_empty(h) {
                Some(j) => {
                    &&& r == Ok::<(), HashTableErrors>(())
                    &&& post.slots() == pre.slots().update(j, Some(KeyValuePair { key, value }))
                },
                None => {
                    &&& r == Err::<(), HashTableErrors>(HashTableErrors::IsFull)
                    &&& post.slots() == pre.slots()
                },
            }
        }
    }

    /// Finds the slot for a colliding entry: the first empty slot scanning
    /// forward from `index` to the end of the array, then wrapping around
    /// from the start up to `index`. Fails with `IsFull` when every slot is
    /// occupied.
    #[verifier::loop_isolation(false)]
    fn collision_resolution(&self, index: usize) -> (r: Result<usize, HashTableErrors>)
        requires
            index < self.array@.len(),
        ensures
            match self.probe_first_empty(index as int) {
                Some(j) => r matches Ok(u) && u as int == j,
                None => r == Err::<usize, HashTableErrors>(HashTableErrors::IsFull),
            },
    {
        proof {
            self.lemma_first_empty_in_range(index as int, self.capacity() as int);
            self.lemma_first_empty_in_range(0, index as int);
        }
        let mut i: usize = index;
        while i < self.array.len()
            invariant
                index <= i <= self.array@.len(),
                forall|t: int| index <= t < i ==> self.slots()[t] is Some,
            decreases self.array@.len() - i,
        {
            if self.array[i].is_none() {
                return Ok(i);
            }
            i = i + 1;
        }
        let mut i: usize = 0;
        while i < index
            invariant
                i <= index,
                forall|t: int| 0 <= t < i ==> self.slots()[t] is Some,
            decreases index - i,
        {
            if self.array[i].is_none() {
                return Ok(i);
            }
            i = i + 1;
        }
        Err(HashTableErrors::IsFull)
    }

    /// Inserts `key` with `value`. A key already sitting in its home slot is
    /// overwritten in place; an occupied home slot otherwise sends the entry
    /// to the first empty slot in forward-then-wrap probe order. Fails with
    /// `HashFunctionRange` when the hash function returns an index outside
    /// the slot array, and with `IsFull` when no empty slot is left; either
    /// way the table is unchanged.
    pub fn insert(&mut self, key: K, value: V) -> (r: Result<(), HashTableErrors>)
        requires
            old(self).wf(),
        ensures
            final(self).wf(),
            final(self).capacity() == old(self).capacity(),
            Self::insert_effect(*old(self), *final(self), key, value, r),
            call_ensures(old(self).hash_function, (&key,), old(self).spec_hash(key)),
    {
        let index = (self.hash_function)(&key);
        proof {
            Self::lemma_hash_value_of(self.hash_function, key, index);
        }
        if index >= self.array.len() {
            return Err(HashTableErrors::HashFunctionRange);
        }
        let replace_in_place = match &self.array[index] {
            None => true,
            Some(entry) => entry.key == key,
        };
        if replace_in_place {
            self.array[index] = Some(KeyValuePair::new(key, value));
            proof {
                self.lemma_inv_after_update(*old(self), index as int, index as int);
            }
            return Ok(());
        }
        let empty_index = match self.collision_resolution(index) {
            Ok(found) => found,
            Err(e) => {
                return Err(e);
            },
        };
        proof {
            self.lemma_first_empty_in_range(index as int, self.capacity() as int);
            self.lemma_first_empty_in_range(0, index as int);
        }
        self.array[empty_index] = Some(KeyValuePair::new(key, value));
        proof {
            self.lemma_inv_after_update(*old(self), index as int, empty_index as int);
        }
        Ok(())
    }

    /// Looks `key` up. Returns a reference to the value of the first entry
    /// for `key` in forward-then-wrap probe order from the key's hash index,
    /// or `None` when no slot holds the key. An empty home slot settles the
    /// search at once: entries are never removed, so a key whose home slot is
    /// empty was never inserted.
    ///
    /// The caller's hash function must send the key inside the slot array;
    /// the table only checks this on `insert`.
    pub fn lookup(&self, key: K) -> (r: Option<&V>)
        requires
            self.wf(),
            forall|h: usize|
                call_ensures(self.hash_function, (&key,), h) ==> h < self.capacity(),
        ensures
            r is Some <==> self.contains_key(key),
            r matches Some(v) ==> self.spec_lookup(key) == Some(*v),
            call_ensures(self.hash_function, (&key,), self.spec_hash(key)),
    {
        let index = (self.hash_function)(&key);
        proof {
            Self::lemma_hash_value_of(self.hash_function, key, index);
            self.lemma_first_match_in_range(index as int, self.capacity() as int, key);
            self.lemma_first_match_in_range(0, index as int, key);
        }
        if self.array[index].is_none() {
            proof {
                assert forall|i: int| 0 <= i < self.capacity() implies !self.slot_has_key(
                    i,
                    key,
                ) by {
                    if self.slot_has_key(i, key) {
                        assert(self.slots()[i] is Some);
                        assert(self.slots()[self.spec_hash(key) as int] is Some);
                    }
                }
            }
            return None;
        }
        let mut i: usize = index;
        #[verifier::loop_isolation(false)]
        while i < self.array.len()
            invariant
                index <= i <= self.array@.len(),
                forall|t: int| index <= t < i ==> !self.slot_has_key(t, key),
            decreases self.array@.len() - i,
        {
            match &self.array[i] {
                Some(entry) => {
                    if entry.key == key {
                        proof {
                            assert(self.slot_has_key(i as int, key));
                            assert(self.first_match_in_range(
                                index as int,
                                self.capacity() as int,
                                key,
                            ) == Some(i as int));
                            assert(self.probe_first_match(index as int, key) == Some(i as int));
                            assert(self.spec_lookup(key) == Some(entry.value));
                        }
                        return Some(&entry.value);
                    }
                },
                None => {},
            }
            i = i + 1;
        }
        let mut i: usize = 0;
        #[verifier::loop_isolation(false)]
        while i < index
            invariant
                i <= index,
                forall|t: int| 0 <= t < i ==> !self.slot_has_key(t, key),
                forall|t: int|
                    index <= t < self.array@.len() ==> !self.slot_has_key(t, key),
            decreases index - i,
        {
            match &self.array[i] {
                Some(entry) => {
                    if entry.key == key {
                        proof {
                            assert(self.slot_has_key(i as int, key));
                            assert(self.first_match_in_range(
                                index as int,
                                self.capacity() as int,
                                key,
                            ) is None);
                            assert(self.first_match_in_range(0, index as int, key) == Some(
                                i as int,
                            ));
                            assert(self.probe_first_match(index as int, key) == Some(i as int));
                            assert(self.spec_lookup(key) == Some(entry.value));
                        }
                        return Some(&entry.value);
                    }
                },
                None => {},
            }
            i = i + 1;
        }
        None
    }

    /// Law: inserting a key whose home slot is empty places the entry
    /// exactly at the key's hash index and changes nothing else.
    pub proof fn lemma_no_collision_insert(
        pre: Self,
        post: Self,
        key: K,
        value: V,
        r: Result<(), HashTableErrors>,
    )
        requires
            Self::insert_effect(pre, post, key, value, r),
            pre.spec_hash(key) < pre.capacity(),
            pre.slots()[pre.spec_hash(key) as int] is None,
        ensures
            r is Ok,
            post.slots() == pre.slots().update(
                pre.spec_hash(key) as int,
                Some((KeyValuePair { key, value })),
            ),
    {
    }

    /// Law: inserting a key whose home slot holds a different key places the
    /// entry at the first empty slot found by forward-then-wrap probing from
    /// the hash index, and changes nothing else.
    pub proof fn lemma_collision_insert(
        pre: Self,
        post: Self,
        key: K,
        value: V,
        r: Result<(), HashTableErrors>,
        j: int,
    )
        requires
            Self::insert_effect(pre, post, key, value, r),
            pre.spec_hash(key) < pre.capacity(),
            pre.slots()[pre.spec_hash(key) as int] is Some,
            pre.slots()[pre.spec_hash(key) as int]->Some_0.key != key,
            pre.probe_first_empty(pre.spec_hash(key) as int) == Some(j),
        ensures
            r is Ok,
            post.slots() == pre.slots().update(j, Some((KeyValuePair { key, value }))),
    {
    }

    /// Law: inserting a key that already sits in its home slot overwrites
    /// the value there, without changing which slots are occupied or which
    /// key any slot holds.
    pub proof fn lemma_update_in_place(
        pre: Self,
        post: Self,
        key: K,
        value: V,
        r: Result<(), HashTableErrors>,
    )
        requires
            Self::insert_effect(pre, post, key, value, r),
            pre.spec_hash(key) < pre.capacity(),
            pre.slot_has_key(pre.spec_hash(key) as int, key),
        ensures
            r is Ok,
            post.slot_has_key(pre.spec_hash(key) as int, key),
            post.slots()[pre.spec_hash(key) as int]->Some_0.value == value,
            forall|i: int|
                0 <= i < pre.capacity() ==> (post.slots()[i] is Some <==> pre.slots()[i] is Some),
            forall|i: int|
                0 <= i < pre.capacity() && post.slots()[i] is Some ==> post.slots()[i]->Some_0.key
                    == pre.slots()[i]->Some_0.key,
    {
    }

    /// Law: a successful insert of a key that was absent, or that sits in
    /// its home slot, is found again by lookup with the value just inserted.
    #[verifier::rlimit(50)]
    pub proof fn lemma_lookup_after_insert(
        pre: Self,
        post: Self,
        key: K,
        value: V,
        r: Result<(), HashTableErrors>,
    )
        requires
            pre.wf(),
            Self::insert_effect(pre, post, key, value, r),
            r is Ok,
            !pre.contains_key(key) || pre.slot_has_key(pre.spec_hash(key) as int, key),
        ensures
            post.contains_key(key),
            post.spec_lookup(key) == Some(value),
    {
        let h = pre.spec_hash(key) as int;
        let cap = pre.capacity() as int;
        pre.lemma_first_empty_in_range(h, cap);
        pre.lemma_first_empty_in_range(0, h);
        assert(post.spec_hash(key) == pre.spec_hash(key));
        assert(post.capacity() == pre.capacity());
        if pre.slots()[h] is None || pre.slots()[h]->Some_0.key == key {
            assert(post.slot_has_key(h, key));
            assert(post.first_match_in_range(h, cap, key) == Some(h));
            assert(post.spec_lookup(key) == Some(value));
        } else {
            assert(!pre.slot_has_key(h, key));
            assert(!pre.contains_key(key));
            let j = pre.probe_first_empty(h)->Some_0;
            assert(pre.probe_first_empty(h) == Some(j));
            post.lemma_first_match_in_range(h, cap, key);
            post.lemma_first_match_in_range(0, h, key);
            assert(post.slot_has_key(j, key));
            assert forall|t: int| 0 <= t < cap && t != j implies !post.slot_has_key(
                t,
                key,
            ) by {
                assert(!pre.slot_has_key(t, key));
                assert(post.slots()[t] == pre.slots()[t]);
            }
            if pre.first_empty_in_range(h, cap) is Some {
                assert(post.first_match_in_range(h, cap, key) == Some(j));
            } else {
                assert(post.first_match_in_range(h, cap, key) is None);
                assert(post.first_match_in_range(0, h, key) == Some(j));
            }
            assert(post.probe_first_match(h, key) == Some(j));
            assert(post.spec_lookup(key) == Some(value));
        }
    }

    /// Two tables whose slots agree about key `k` throughout a range find
    /// the same first match in it.
    proof fn lemma_first_match_same(pre: Self, post: Self, lo: int, hi: int, k: K)
        requires
            forall|t: int| lo <= t < hi ==> (post.slot_has_key(t, k) <==> pre.slot_has_key(t, k)),
        ensures
            post.first_match_in_range(lo, hi, k) == pre.first_match_in_range(lo, hi, k),
        decreases hi - lo,
    {
        if lo < hi {
            Self::lemma_first_match_same(pre, post, lo + 1, hi, k);
        }
    }

    /// Law: inserting one key leaves the lookup of every other key
    /// unchanged, so the value last inserted for a key stays the one found,
    /// whatever is inserted for other keys afterwards.
    pub proof fn lemma_other_insert_preserves_lookup(
        pre: Self,
        post: Self,
        inserted_key: K,
        value: V,
        r: Result<(), HashTableErrors>,
        key: K,
    )
        requires
            Self::insert_effect(pre, post, inserted_key, value, r),
            key != inserted_key,
            pre.spec_hash(key) <= pre.capacity(),
        ensures
            post.spec_lookup(key) == pre.spec_lookup(key),
    {
        let h2 = pre.spec_hash(inserted_key) as int;
        let cap = pre.capacity() as int;
        pre.lemma_first_empty_in_range(h2, cap);
        pre.lemma_first_empty_in_range(0, h2);
        assert(post.capacity() == pre.capacity());
        assert(post.spec_hash(key) == pre.spec_hash(key));
        let h = pre.spec_hash(key) as int;
        assert forall|t: int| 0 <= t < cap implies (post.slot_has_key(t, key)
            <==> pre.slot_has_key(t, key)) by {
            if post.slots()[t] != pre.slots()[t] {
                assert(post.slots()[t] == Some(
                    (KeyValuePair { key: inserted_key, value }),
                ));
            }
        }
        Self::lemma_first_match_same(pre, post, h, cap, key);
        Self::lemma_first_match_same(pre, post, 0, h, key);
        pre.lemma_first_match_in_range(h, cap, key);
        pre.lemma_first_match_in_range(0, h, key);
        match pre.probe_first_match(h, key) {
            Some(j) => {
                assert(pre.slot_has_key(j, key));
                assert(post.slots()[j] == pre.slots()[j]);
            },
            None => {},
        }
    }

    /// Law: inserting one key never creates an entry for another key, so a
    /// key that was never inserted stays absent whatever the table holds.
    pub proof fn lemma_absence_preserved(
        pre: Self,
        post: Self,
        inserted_key: K,
        value: V,
        r: Result<(), HashTableErrors>,
        key: K,
    )
        requires
            Self::insert_effect(pre, post, inserted_key, value, r),
            key != inserted_key,
            !pre.contains_key(key),
        ensures
            !post.contains_key(key),
    {
        let h = pre.spec_hash(inserted_key) as int;
        let cap = pre.capacity() as int;
        pre.lemma_first_empty_in_range(h, cap);
        pre.lemma_first_empty_in_range(0, h);
        assert(post.capacity() == pre.capacity());
        assert forall|i: int| 0 <= i < post.capacity() implies !post.slot_has_key(i, key) by {
            assert(!pre.slot_has_key(i, key));
            if post.slots()[i] != pre.slots()[i] {
                assert(post.slots()[i] == Some((KeyValuePair { key: inserted_key, value })));
            }
        }
    }

    /// Law: once every slot is occupied, inserting a key the table does not
    /// hold fails with `IsFull` and leaves every entry unchanged.
    pub proof fn lemma_full_table_insert(
        pre: Self,
        post: Self,
        key: K,
        value: V,
        r: Result<(), HashTableErrors>,
    )
        requires
            Self::insert_effect(pre, post, key, value, r),
            pre.spec_hash(key) < pre.capacity(),
            forall|i: int| 0 <= i < pre.capacity() ==> pre.slots()[i] is Some,
            !pre.contains_key(key),
        ensures
            r == Err::<(), HashTableErrors>(HashTableErrors::IsFull),
            post.slots() == pre.slots(),
    {
        let h = pre.spec_hash(key) as int;
        let cap = pre.capacity() as int;
        assert(!pre.slot_has_key(h, key));
        assert(pre.slots()[h]->Some_0.key != key);
        pre.lemma_first_empty_in_range(h, cap);
        pre.lemma_first_empty_in_range(0, h);
        assert(pre.probe_first_empty(h) is None);
    }

    /// Law: a hash result at or past the capacity makes insert fail with
    /// `HashFunctionRange` and leaves the table unchanged.
    pub proof fn lemma_out_of_range_insert(
        pre: Self,
        post: Self,
        key: K,
        value: V,
        r: Result<(), HashTableErrors>,
    )
        requires
            Self::insert_effect(pre, post, key, value, r),
            pre.spec_hash(key) >= pre.capacity(),
        ensures
            r == Err::<(), HashTableErrors>(HashTableErrors::HashFunctionRange),
            post.slots() == pre.slots(),
    {
    }

    /// Placing an entry whose hash is `h` into slot `j` preserves the
    /// structural invariant, provided the entry's home slot ends up occupied.
    proof fn lemma_inv_after_update(self, pre: Self, h: int, j: int)
        requires
            pre.inv(),
            Self::hash_fn_pure(pre.hash_function),
            self.hash_function == pre.hash_function,
            0 <= j < pre.capacity(),
            0 <= h < pre.capacity(),
            self.slots()[j] is Some,
            self.spec_hash(self.slots()[j]->Some_0.key) == h,
            self.slots() == pre.slots().update(j, self.slots()[j]),
            self.slots()[h] is Some,
        ensures
            self.inv(),
    {
        assert forall|i: int|
            0 <= i < self.capacity() && self.slots()[i] is Some implies {
            let k = self.slots()[i]->Some_0.key;
            &&& self.spec_hash(k) < self.capacity()
            &&& self.slots()[self.spec_hash(k) as int] is Some
        } by {
            let k = self.slots()[i]->Some_0.key;
            if i != j {
                assert(pre.slots()[i] is Some);
                assert(pre.spec_hash(k) < pre.capacity());
                assert(pre.slots()[pre.spec_hash(k) as int] is Some);
                assert(self.spec_hash(k) == pre.spec_hash(k));
            }
        }
    }
}

} // verus!
