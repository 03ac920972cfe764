//! A hash map with open chaining: a vector of buckets, each a vector of
//! key/value pairs, that doubles its bucket count as it fills.
//!
//! Keys are spread over buckets by a keyed SipHash-1-3 of what their `Hash`
//! impl feeds it. Nothing here depends on which bucket a key lands in: every
//! operation that takes a bucket index is exact for any index, and the
//! operations that hash first state what holds whichever bucket was chosen.

use core::hash::Hash;
use vstd::multiset::Multiset;
use vstd::prelude::*;
use vstd::std_specs::cmp::PartialEqSpec;

verus! {

broadcast use {
    vstd::seq_lib::group_seq_properties,
    vstd::seq_lib::group_to_multiset_ensures,
    vstd::multiset::group_multiset_axioms,
    vstd::multiset::group_multiset_properties,
};

/// Relies on siphasher's `SipHasher13`, fed by `K`'s `Hash` impl, for a hash
/// of `key`. Nothing is stated of the value: any bucket derived from it is
/// handled correctly.
#[verifier::external_body]
fn sip_hash<K: Hash>(key: &K) -> u64 {
    let mut hasher = siphasher::sip::SipHasher13::new();
    key.hash(&mut hasher);
    core::hash::Hasher::finish(&hasher)
}

/// Two keys are the same key when `==` says so.
pub open spec fn same_key<K: PartialEq>(a: K, b: K) -> bool {
    a.eq_spec(&b)
}

/// `j` is the first position in `b` whose key is `key`.
pub open spec fn is_first_match<K: PartialEq, V>(b: Seq<(K, V)>, key: K, j: int) -> bool {
    &&& 0 <= j < b.len()
    &&& same_key(b[j].0, key)
    &&& forall|i: int| 0 <= i < j ==> !#[trigger] same_key(b[i].0, key)
}

/// Some pair in `b` has the key `key`.
pub open spec fn has_match<K: PartialEq, V>(b: Seq<(K, V)>, key: K) -> bool {
    exists|i: int| 0 <= i < b.len() && #[trigger] same_key(b[i].0, key)
}

/// The pairs held by all buckets together.
pub open spec fn contents<K, V>(t: Seq<Seq<(K, V)>>) -> Multiset<(K, V)>
    decreases t.len(),
{
    if t.len() == 0 {
        Multiset::empty()
    } else {
        contents(t.drop_last()).add(t.last().to_multiset())
    }
}

/// The buckets of a vector of vectors, as sequences.
pub open spec fn seqs_of<K, V>(v: Seq<Vec<(K, V)>>) -> Seq<Seq<(K, V)>> {
    v.map_values(|b: Vec<(K, V)>| b@)
}

proof fn lemma_contents_update<K, V>(t: Seq<Seq<(K, V)>>, i: int, x: Seq<(K, V)>)
    requires
        0 <= i < t.len(),
    ensures
        contents(t.update(i, x)).add(t[i].to_multiset()) == contents(t).add(x.to_multiset()),
    decreases t.len(),
{
    let u = t.update(i, x);
    if i == t.len() - 1 {
        assert(u.drop_last() =~= t.drop_last());
        assert(contents(u).add(t[i].to_multiset()) =~= contents(t).add(x.to_multiset()));
    } else {
        assert(u.drop_last() =~= t.drop_last().update(i, x));
        assert(u.last() == t.last());
        assert(contents(u) == contents(u.drop_last()).add(u.last().to_multiset()));
        assert(contents(t) == contents(t.drop_last()).add(t.last().to_multiset()));
        lemma_contents_update(t.drop_last(), i, x);
        let a = contents(t.drop_last().update(i, x));
        let d = contents(t.drop_last());
        assert forall|p: (K, V)|
            #[trigger] contents(u).add(t[i].to_multiset()).count(p) == contents(t).add(
                x.to_multiset(),
            ).count(p) by {
            assert(a.add(t[i].to_multiset()).count(p) == d.add(x.to_multiset()).count(p));
        }
        assert(contents(u).add(t[i].to_multiset()) =~= contents(t).add(x.to_multiset()));
    }
}

proof fn lemma_contents_covers<K, V>(t: Seq<Seq<(K, V)>>, i: int)
    requires
        0 <= i < t.len(),
    ensures
        forall|p: (K, V)| #[trigger] contents(t).count(p) >= t[i].to_multiset().count(p),
{
    let e = Seq::<(K, V)>::empty();
    lemma_contents_update(t, i, e);
    assert(e.to_multiset() =~= Multiset::<(K, V)>::empty());
    assert forall|p: (K, V)| #[trigger] contents(t).count(p) >= t[i].to_multiset().count(p) by {
        assert(contents(t.update(i, e)).add(t[i].to_multiset()).count(p) == contents(t).add(
            e.to_multiset(),
        ).count(p));
    }
}

proof fn lemma_contents_len_update<K, V>(t: Seq<Seq<(K, V)>>, i: int)
    requires
        0 <= i < t.len(),
    ensures
        forall|x: Seq<(K, V)>|
            x.len() == t[i].len() ==> #[trigger] contents(t.update(i, x)).len() == contents(t).len(),
{
    assert forall|x: Seq<(K, V)>| x.len() == t[i].len() implies #[trigger] contents(
        t.update(i, x),
    ).len() == contents(t).len() by {
        lemma_contents_update(t, i, x);
        assert(t[i].to_multiset().len() == t[i].len());
        assert(x.to_multiset().len() == x.len());
        assert(contents(t.update(i, x)).add(t[i].to_multiset()).len() == contents(t.update(i, x)).len()
            + t[i].len());
        assert(contents(t).add(x.to_multiset()).len() == contents(t).len() + x.len());
    }
}

proof fn lemma_contents_empty<K, V>(t: Seq<Seq<(K, V)>>)
    requires
        forall|i: int| 0 <= i < t.len() ==> (#[trigger] t[i]).len() == 0,
    ensures
        contents(t) == Multiset::<(K, V)>::empty(),
    decreases t.len(),
{
    if t.len() > 0 {
        lemma_contents_empty(t.drop_last());
        assert(t.last() =~= Seq::<(K, V)>::empty());
        assert(contents(t) =~= Multiset::<(K, V)>::empty());
    }
}

/// The first position in `b` whose key is `key`.
fn position<K: Eq, V>(b: &Vec<(K, V)>, key: &K) -> (r: Option<usize>)
    requires
        K::obeys_eq_spec(),
    ensures
        match r {
            Some(j) => is_first_match(b@, *key, j as int),
            None => !has_match(b@, *key),
        },
{
    let mut j: usize = 0;
    while j < b.len()
        invariant
            K::obeys_eq_spec(),
            j <= b@.len(),
            forall|i: int| 0 <= i < j ==> !#[trigger] same_key(b@[i].0, *key),
        decreases b@.len() - j,
    {
        if b[j].0.eq(key) {
            return Some(j);
        }
        j += 1;
    }
    None
}

/// A map from keys to values, chained in buckets.
pub struct HashMap<K, V> {
    buckets: Vec<Vec<(K, V)>>,
    item: usize,
}

impl<K, V> HashMap<K, V> {
    /// The buckets, in order, each as the sequence of its pairs.
    pub closed spec fn table(&self) -> Seq<Seq<(K, V)>> {
        seqs_of(self.buckets@)
    }

    /// The number of pairs, as the map counts them.
    pub closed spec fn spec_len(&self) -> nat {
        self.item as nat
    }

    /// The count of pairs agrees with what the buckets hold.
    pub open spec fn wf(&self) -> bool {
        self.spec_len() == contents(self.table()).len()
    }

    /// Changing the value of one pair in place, as through `get_mut`, keeps
    /// the count of pairs in agreement with the buckets.
    pub proof fn lemma_value_change_wf(m1: &Self, m2: &Self, i: int, j: int, v: V)
        requires
            m1.wf(),
            0 <= i < m1.table().len(),
            0 <= j < m1.table()[i].len(),
            m2.table() == m1.table().update(i, m1.table()[i].update(j, (m1.table()[i][j].0, v))),
            m2.spec_len() == m1.spec_len(),
        ensures
            m2.wf(),
    {
        lemma_contents_len_update(m1.table(), i);
        assert(m1.table()[i].update(j, (m1.table()[i][j].0, v)).len() == m1.table()[i].len());
    }

    /// A map with no bucket and no pair.
    pub fn new() -> (r: Self)
        ensures
            r.wf(),
            r.table() == Seq::<Seq<(K, V)>>::empty(),
            r.spec_len() == 0,
    {
        let r = HashMap { buckets: Vec::new(), item: 0 };
        assert(r.table() =~= Seq::<Seq<(K, V)>>::empty());
        r
    }
}

impl<K: Hash + Eq, V> HashMap<K, V> {
    /// Doubles the bucket count (or makes the first bucket) and moves every
    /// pair to the bucket its hash now picks.
    fn resize(&mut self)
        requires
            old(self).wf(),
        ensures
            final(self).wf(),
            final(self).table().len() > 0,
            contents(final(self).table()) == contents(old(self).table()),
            final(self).spec_len() == old(self).spec_len(),
    {
        let n = self.buckets.len();
        let target: usize = if n == 0 {
            1
        } else if n <= usize::MAX / 2 {
            2 * n
        } else {
            n
        };
        let mut fresh: Vec<Vec<(K, V)>> = Vec::new();
        let mut i: usize = 0;
        while i < target
            invariant
                i <= target,
                fresh@.len() == i,
                forall|k: int| 0 <= k < i ==> (#[trigger] fresh@[k])@.len() == 0,
            decreases target - i,
        {
            fresh.push(Vec::new());
            i += 1;
        }
        proof {
            lemma_contents_empty(seqs_of(fresh@));
        }
        let ghost whole = contents(self.table());
        let mut rest: Vec<Vec<(K, V)>> = Vec::new();
        core::mem::swap(&mut self.buckets, &mut rest);
        while rest.len() > 0
            invariant
                fresh@.len() == target,
                target > 0,
                contents(seqs_of(fresh@)).add(contents(seqs_of(rest@))) == whole,
            decreases rest@.len(),
        {
            let ghost before = seqs_of(rest@);
            let mut b = rest.pop().unwrap();
            proof {
                assert(seqs_of(rest@) =~= before.drop_last());
            }
            while b.len() > 0
                invariant
                    fresh@.len() == target,
                    target > 0,
                    contents(seqs_of(fresh@)).add(b@.to_multiset()).add(contents(seqs_of(rest@)))
                        == whole,
                decreases b@.len(),
            {
                let ghost b0 = b@;
                let pair = b.pop().unwrap();
                let h = (sip_hash(&pair.0) % (target as u64)) as usize;
                let ghost f0 = seqs_of(fresh@);
                let mut slot: Vec<(K, V)> = Vec::new();
                fresh.set_and_swap(h, &mut slot);
                slot.push(pair);
                fresh.set(h, slot);
                proof {
                    assert(b0 =~= b@.push(pair));
                    assert(seqs_of(fresh@) =~= f0.update(h as int, f0[h as int].push(pair)));
                    lemma_contents_update(f0, h as int, f0[h as int].push(pair));
                    assert(b0.to_multiset() =~= b@.to_multiset().insert(pair));
                    assert(f0[h as int].push(pair).to_multiset() =~= f0[h as int].to_multiset().insert(
                        pair,
                    ));
                    let cf = contents(seqs_of(fresh@));
                    let old_h = f0[h as int].to_multiset();
                    assert forall|p: (K, V)| #[trigger]
                        cf.count(p) == contents(f0).insert(pair).count(p) by {
                        assert(cf.add(old_h).count(p) == contents(f0).add(old_h.insert(pair)).count(
                            p,
                        ));
                    }
                    assert(cf =~= contents(f0).insert(pair));
                    assert(contents(seqs_of(fresh@)).add(b@.to_multiset()).add(
                        contents(seqs_of(rest@)),
                    ) =~= whole);
                }
            }
        }
        self.buckets = fresh;
        proof {
            assert(seqs_of(rest@) =~= Seq::<Seq<(K, V)>>::empty());
            assert(contents(self.table()) =~= whole);
        }
    }

    /// The bucket that `key` hashes to.
    pub fn bucket(&self, key: &K) -> (r: usize)
        requires
            self.table().len() > 0,
        ensures
            r < self.table().len(),
    {
        (sip_hash(key) % (self.buckets.len() as u64)) as usize
    }
    /// The value of the first pair in bucket `index` whose key is `key`.
    pub fn get_at(&self, key: &K, index: usize) -> (r: Option<&V>)
        requires
            K::obeys_eq_spec(),
            index < self.table().len(),
        ensures
            ({
                let b = self.table()[index as int];
                match r {
                    Some(v) => exists|j: int| is_first_match(b, *key, j) && *v == b[j].1,
                    None => !has_match(b, *key),
                }
            }),
    {
        assert(self.table()[index as int] == self.buckets@[index as int]@);
        match position(&self.buckets[index], key) {
            Some(j) => {
                assert(is_first_match(self.table()[index as int], *key, j as int));
                Some(&self.buckets[index][j].1)
            },
            None => None,
        }
    }

    /// The value stored under `key`, looked up in the bucket that `key`
    /// hashes to. A map without buckets holds nothing.
    pub fn get(&self, key: &K) -> (r: Option<&V>)
        requires
            K::obeys_eq_spec(),
        ensures
            self.table().len() == 0 ==> r is None,
            r matches Some(v) ==> exists|i: int, j: int|
                0 <= i < self.table().len() && is_first_match(self.table()[i], *key, j)
                    && *v == self.table()[i][j].1,
    {
        if self.buckets.len() == 0 {
            return None;
        }
        let index = self.bucket(key);
        self.get_at(key, index)
    }

    /// Whether bucket `index` holds a pair whose key is `key`.
    pub fn contains_key_at(&self, key: &K, index: usize) -> (r: bool)
        requires
            K::obeys_eq_spec(),
            index < self.table().len(),
        ensures
            r == has_match(self.table()[index as int], *key),
    {
        position(&self.buckets[index], key).is_some()
    }

    /// Whether the bucket that `key` hashes to holds a pair whose key is `key`.
    pub fn contains_key(&self, key: &K) -> (r: bool)
        requires
            K::obeys_eq_spec(),
        ensures
            self.table().len() == 0 ==> !r,
            r ==> exists|i: int| 0 <= i < self.table().len() && has_match(self.table()[i], *key),
    {
        if self.buckets.len() == 0 {
            return false;
        }
        let index = self.bucket(key);
        self.contains_key_at(key, index)
    }

    /// Stores `value` under `key` in bucket `index`: over the value of the
    /// first pair there whose key is `key`, returning the value it had, or
    /// as a new pair at the end of the bucket.
    pub fn insert_at(&mut self, key: K, value: V, index: usize) -> (r: Option<V>)
        requires
            old(self).wf(),
            K::obeys_eq_spec(),
            index < old(self).table().len(),
            old(self).spec_len() < usize::MAX,
        ensures
            final(self).wf(),
            ({
                let t = old(self).table();
                let b = t[index as int];
                match r {
                    Some(v) => exists|j: int|
                        {
                            &&& is_first_match(b, key, j)
                            &&& v == b[j].1
                            &&& final(self).table() == t.update(index as int, b.update(j, (b[j].0, value)))
                            &&& contents(final(self).table()) == contents(t).remove(b[j]).insert((b[j].0, value))
                            &&& final(self).spec_len() == old(self).spec_len()
                        },
                    None => {
                        &&& !has_match(b, key)
                        &&& final(self).table() == t.update(index as int, b.push((key, value)))
                        &&& contents(final(self).table()) == contents(t).insert((key, value))
                        &&& final(self).spec_len() == old(self).spec_len() + 1
                    },
                }
            }),
    {
        let ghost t = self.table();
        let mut b: Vec<(K, V)> = Vec::new();
        self.buckets.set_and_swap(index, &mut b);
        let ghost b0 = b@;
        match position(&b, &key) {
            Some(j) => {
                let mut v = value;
                core::mem::swap(&mut b[j].1, &mut v);
                let ghost nb = b@;
                self.buckets.set(index, b);
                proof {
                    assert(nb =~= b0.update(j as int, (b0[j as int].0, value)));
                    assert(self.table() =~= t.update(index as int, nb));
                    lemma_contents_update(t, index as int, nb);
                    lemma_contents_covers(t, index as int);
                    vstd::seq_lib::to_multiset_update(b0, j as int, (b0[j as int].0, value));
                    assert(b0.to_multiset().contains(b0[j as int]));
                    assert(contents(t).contains(b0[j as int]));
                    let c = contents(self.table());
                    let m = contents(t).remove(b0[j as int]).insert((b0[j as int].0, value));
                    assert forall|p: (K, V)| #[trigger] c.count(p) == m.count(p) by {
                        assert(c.add(b0.to_multiset()).count(p) == contents(t).add(
                            nb.to_multiset(),
                        ).count(p));
                    }
                    assert(c =~= m);
                }
                Some(v)
            },
            None => {
                b.push((key, value));
                let ghost nb = b@;
                self.buckets.set(index, b);
                self.item = self.item + 1;
                proof {
                    assert(self.table() =~= t.update(index as int, nb));
                    lemma_contents_update(t, index as int, nb);
                    let c = contents(self.table());
                    let m = contents(t).insert((key, value));
                    assert forall|p: (K, V)| #[trigger] c.count(p) == m.count(p) by {
                        assert(c.add(b0.to_multiset()).count(p) == contents(t).add(
                            nb.to_multiset(),
                        ).count(p));
                    }
                    assert(c =~= m);
                }
                None
            },
        }
    }

    /// Stores `value` under `key`, first growing the table when it is empty
    /// or more than three quarters full. Returns the value that a pair with
    /// the same key had in the bucket that `key` hashes to, which keeps its
    /// key and takes `value`; otherwise the pair is added.
    pub fn insert(&mut self, key: K, value: V) -> (r: Option<V>)
        requires
            old(self).wf(),
            K::obeys_eq_spec(),
            old(self).spec_len() < usize::MAX,
        ensures
            final(self).wf(),
            final(self).table().len() > 0,
            ({
                let c = contents(old(self).table());
                match r {
                    Some(v) => exists|k: K|
                        {
                            &&& same_key(k, key)
                            &&& c.contains((k, v))
                            &&& contents(final(self).table()) == c.remove((k, v)).insert((k, value))
                            &&& final(self).spec_len() == old(self).spec_len()
                        },
                    None => {
                        &&& contents(final(self).table()) == c.insert((key, value))
                        &&& final(self).spec_len() == old(self).spec_len() + 1
                    },
                }
            }),
    {
        let n = self.buckets.len();
        if n == 0 || (self.item as u128) > 3 * (n as u128) / 4 {
            self.resize();
        }
        let index = self.bucket(&key);
        let ghost t = self.table();
        let r = self.insert_at(key, value, index);
        proof {
            if r is Some {
                let v = r->0;
                let j = choose|j: int|
                    {
                        &&& is_first_match(t[index as int], key, j)
                        &&& v == t[index as int][j].1
                        &&& contents(self.table()) == contents(t).remove(t[index as int][j]).insert(
                            (t[index as int][j].0, value),
                        )
                    };
                lemma_contents_covers(t, index as int);
                assert(t[index as int].to_multiset().contains(t[index as int][j]));
                assert(contents(t).contains(t[index as int][j]));
                let k = t[index as int][j].0;
                assert(same_key(k, key));
            }
        }
        r
    }
    /// Takes out the first pair in bucket `index` whose key is `key`, moving
    /// the bucket's last pair into its place, and returns its value.
    pub fn remove_at(&mut self, key: &K, index: usize) -> (r: Option<V>)
        requires
            old(self).wf(),
            K::obeys_eq_spec(),
            index < old(self).table().len(),
        ensures
            final(self).wf(),
            ({
                let t = old(self).table();
                let b = t[index as int];
                match r {
                    Some(v) => exists|j: int|
                        {
                            &&& is_first_match(b, *key, j)
                            &&& v == b[j].1
                            &&& final(self).table() == t.update(index as int, b.update(j, b.last()).drop_last())
                            &&& contents(final(self).table()) == contents(t).remove(b[j])
                            &&& final(self).spec_len() == old(self).spec_len() - 1
                        },
                    None => {
                        &&& !has_match(b, *key)
                        &&& final(self).table() == t
                        &&& final(self).spec_len() == old(self).spec_len()
                    },
                }
            }),
    {
        let ghost t = self.table();
        let mut b: Vec<(K, V)> = Vec::new();
        self.buckets.set_and_swap(index, &mut b);
        let ghost b0 = b@;
        match position(&b, key) {
            Some(j) => {
                let pair = b.swap_remove(j);
                let ghost nb = b@;
                self.buckets.set(index, b);
                proof {
                    assert(self.table() =~= t.update(index as int, nb));
                    lemma_contents_update(t, index as int, nb);
                    lemma_contents_covers(t, index as int);
                    let x = b0[j as int];
                    let tail = b0.update(j as int, b0.last());
                    vstd::seq_lib::to_multiset_update(b0, j as int, b0.last());
                    assert(tail =~= nb.push(tail.last()));
                    assert(tail.to_multiset() =~= nb.to_multiset().insert(tail.last()));
                    assert(b0.to_multiset().contains(x));
                    assert(contents(t).contains(x));
                    let c = contents(self.table());
                    let m = contents(t).remove(x);
                    assert(tail.last() == b0.last());
                    assert forall|p: (K, V)| #[trigger] c.count(p) == m.count(p) by {
                        assert(tail.to_multiset().count(p) == nb.to_multiset().insert(
                            b0.last(),
                        ).count(p));
                        assert(tail.to_multiset().count(p) == b0.to_multiset().insert(
                            b0.last(),
                        ).remove(x).count(p));
                        assert(c.add(b0.to_multiset()).count(p) == contents(t).add(
                            nb.to_multiset(),
                        ).count(p));
                    }
                    assert(c =~= m);
                }
                self.item = self.item - 1;
                Some(pair.1)
            },
            None => {
                self.buckets.set(index, b);
                proof {
                    assert(self.table() =~= t);
                }
                None
            },
        }
    }

    /// Takes out the pair stored under `key` in the bucket that `key` hashes
    /// to, and returns its value.
    pub fn remove(&mut self, key: &K) -> (r: Option<V>)
        requires
            old(self).wf(),
            K::obeys_eq_spec(),
        ensures
            final(self).wf(),
            old(self).table().len() == 0 ==> r is None,
            ({
                let c = contents(old(self).table());
                match r {
                    Some(v) => exists|k: K|
                        {
                            &&& same_key(k, *key)
                            &&& c.contains((k, v))
                            &&& contents(final(self).table()) == c.remove((k, v))
                            &&& final(self).spec_len() == old(self).spec_len() - 1
                        },
                    None => {
                        &&& final(self).table() == old(self).table()
                        &&& final(self).spec_len() == old(self).spec_len()
                    },
                }
            }),
    {
        if self.buckets.len() == 0 {
            return None;
        }
        let index = self.bucket(key);
        let ghost t = self.table();
        let r = self.remove_at(key, index);
        proof {
            if r is Some {
                let v = r->0;
                let j = choose|j: int|
                    {
                        &&& is_first_match(t[index as int], *key, j)
                        &&& v == t[index as int][j].1
                        &&& contents(self.table()) == contents(t).remove(t[index as int][j])
                    };
                lemma_contents_covers(t, index as int);
                assert(t[index as int].to_multiset().contains(t[index as int][j]));
                assert(contents(t).contains(t[index as int][j]));
                let k = t[index as int][j].0;
                assert(same_key(k, *key));
            }
        }
        r
    }

    /// The number of pairs.
    pub fn len(&self) -> (r: usize)
        ensures
            r == self.spec_len(),
    {
        self.item
    }

    /// Whether the map holds no pair.
    pub fn is_empty(&self) -> (r: bool)
        ensures
            r == (self.spec_len() == 0),
    {
        self.item == 0
    }
    /// The value of the first pair in bucket `index` whose key is `key`, to
    /// be changed in place.
    pub fn get_mut_at(&mut self, key: &K, index: usize) -> (r: Option<&mut V>)
        requires
            K::obeys_eq_spec(),
            index < old(self).table().len(),
        ensures
            ({
                let t = old(self).table();
                let b = t[index as int];
                match r {
                    Some(v) => exists|j: int|
                        {
                            &&& is_first_match(b, *key, j)
                            &&& *v == b[j].1
                            &&& final(self).table() == t.update(index as int, b.update(j, (b[j].0, *final(v))))
                            &&& final(self).spec_len() == old(self).spec_len()
                        },
                    None => !has_match(b, *key) && *final(self) == *old(self),
                }
            }),
    {
        assert(self.table()[index as int] == self.buckets@[index as int]@);
        match position(&self.buckets[index], key) {
            Some(j) => {
                assert(is_first_match(self.table()[index as int], *key, j as int));
                Some(&mut self.buckets[index][j].1)
            },
            None => None,
        }
    }
    /// The value stored under `key` in the bucket that `key` hashes to, to be
    /// changed in place.
    pub fn get_mut(&mut self, key: &K) -> (r: Option<&mut V>)
        requires
            K::obeys_eq_spec(),
        ensures
            old(self).table().len() == 0 ==> r is None,
            ({
                let t = old(self).table();
                match r {
                    Some(v) => exists|i: int, j: int|
                        {
                            &&& 0 <= i < t.len()
                            &&& is_first_match(t[i], *key, j)
                            &&& *v == t[i][j].1
                            &&& final(self).table() == t.update(i, t[i].update(j, (t[i][j].0, *final(v))))
                            &&& final(self).spec_len() == old(self).spec_len()
                        },
                    None => *final(self) == *old(self),
                }
            }),
    {
        if self.buckets.len() == 0 {
            return None;
        }
        let index = self.bucket(key);
        self.get_mut_at(key, index)
    }
}

/// The first position at or after pair `a` of bucket `b`, in bucket order and
/// then pair order, that holds a pair.
pub open spec fn next_pos<K, V>(t: Seq<Seq<(K, V)>>, b: int, a: int) -> Option<(int, int)>
    decreases t.len() - b,
{
    if b < 0 || b >= t.len() {
        None
    } else if 0 <= a < t[b].len() {
        Some((b, a))
    } else {
        next_pos(t, b + 1, 0)
    }
}

/// A walk over the pairs of a map, bucket by bucket.
pub struct Iter<'a, K, V> {
    map: &'a HashMap<K, V>,
    bucket: usize,
    at: usize,
}

impl<'a, K, V> Iter<'a, K, V> {
    /// The buckets of the map being walked.
    pub closed spec fn table(&self) -> Seq<Seq<(K, V)>> {
        self.map.table()
    }

    /// The bucket and the position in it where the walk resumes.
    pub closed spec fn cursor(&self) -> (int, int) {
        (self.bucket as int, self.at as int)
    }

    /// The next pair of the walk, if any is left.
    pub fn next(&mut self) -> (r: Option<(&'a K, &'a V)>)
        ensures
            final(self).table() == old(self).table(),
            ({
                let t = old(self).table();
                match next_pos(t, old(self).cursor().0, old(self).cursor().1) {
                    Some(p) => {
                        &&& r is Some
                        &&& *(r->0).0 == t[p.0][p.1].0
                        &&& *(r->0).1 == t[p.0][p.1].1
                        &&& final(self).cursor() == (p.0, p.1 + 1)
                    },
                    None => r is None && final(self).cursor().0 >= t.len(),
                }
            }),
    {
        let map: &'a HashMap<K, V> = self.map;
        loop
            invariant
                self.map == map,
                self.table() == old(self).table(),
                next_pos(self.table(), self.cursor().0, self.cursor().1) == next_pos(
                    old(self).table(),
                    old(self).cursor().0,
                    old(self).cursor().1,
                ),
            decreases map.table().len() - self.bucket,
        {
            if self.bucket >= map.buckets.len() {
                return None;
            }
            let b: &'a Vec<(K, V)> = &map.buckets[self.bucket];
            assert(map.table()[self.bucket as int] == b@);
            if self.at < b.len() {
                let p: &'a (K, V) = &b[self.at];
                self.at = self.at + 1;
                return Some((&p.0, &p.1));
            }
            self.bucket = self.bucket + 1;
            self.at = 0;
        }
    }
}

impl<K, V> HashMap<K, V> {
    /// A walk over every pair, from the first bucket on.
    pub fn iter(&self) -> (r: Iter<'_, K, V>)
        ensures
            r.table() == self.table(),
            r.cursor() == (0int, 0int),
    {
        Iter { map: self, bucket: 0, at: 0 }
    }
}

} // verus!
