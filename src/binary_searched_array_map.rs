//! A map held as an array of pairs sorted by key, searched by bisection or
//! by galloping from a known position.

use vstd::prelude::*;

verus! {

/// A key and its value.
#[derive(Clone, Copy, Debug, Hash, PartialEq, Eq, PartialOrd, Ord)]
pub struct Pair<K, V> {
    pub k: K,
    pub v: V,
}

impl<K, V> From<(K, V)> for Pair<K, V> {
    fn from(tuple: (K, V)) -> Pair<K, V> {
        Pair { k: tuple.0, v: tuple.1 }
    }
}

impl<K, V> vstd::std_specs::convert::FromSpecImpl<(K, V)> for Pair<K, V> {
    open spec fn obeys_from_spec() -> bool {
        true
    }

    open spec fn from_spec(v: (K, V)) -> Pair<K, V> {
        Pair { k: v.0, v: v.1 }
    }
}

impl<K, V> Pair<K, V> {
    pub fn new(k: K, v: V) -> (r: Pair<K, V>)
        ensures
            r.k == k,
            r.v == v,
    {
        Pair { k, v }
    }
}

/// Keys strictly increasing.
pub open spec fn sorted_keys<V>(s: Seq<Pair<i64, V>>) -> bool {
    forall|i: int, j: int| 0 <= i < j < s.len() ==> #[trigger] s[i].k < #[trigger] s[j].k
}

/// Number of keys below `key`: where `key` is, or would go.
pub open spec fn lower_bound<V>(s: Seq<Pair<i64, V>>, key: i64) -> int
    decreases s.len(),
{
    if s.len() == 0 {
        0
    } else if s.last().k < key {
        s.len() as int
    } else {
        lower_bound(s.drop_last(), key)
    }
}

/// Whether some pair has key `key`.
pub open spec fn has_key<V>(s: Seq<Pair<i64, V>>, key: i64) -> bool {
    exists|i: int| 0 <= i < s.len() && #[trigger] s[i].k == key
}

/// A map from `i64` keys, held as pairs sorted by key.
pub struct BinarySearchedArrayMap<V> {
    pub data: Vec<Pair<i64, V>>,
}

/// A position in a map: where a key is (`present`) or would be inserted.
#[derive(Clone, Copy)]
pub struct Entry<'a, V> {
    pub map: &'a BinarySearchedArrayMap<V>,
    pub index: usize,
    pub present: bool,
}

impl<V> BinarySearchedArrayMap<V> {
    pub open spec fn wf(&self) -> bool {
        sorted_keys(self.data@)
    }

    /// Builds the map from pairs already sorted by strictly increasing key.
    pub fn from_sorted_pairs(pairs: Vec<Pair<i64, V>>) -> (r: Self)
        requires
            sorted_keys(pairs@),
        ensures
            r.wf(),
            r.data@ == pairs@,
    {
        BinarySearchedArrayMap { data: pairs }
    }

    /// The entry for `key`, found by bisection.
    pub fn entry(&self, key: i64) -> (r: Entry<'_, V>)
        requires
            self.wf(),
        ensures
            r.map == self,
            r.index == lower_bound(self.data@, key),
            r.present == has_key(self.data@, key),
    {
        let mut left: usize = 0;
        let mut right: usize = self.data.len();
        while left < right
            invariant
                self.wf(),
                left <= right <= self.data@.len(),
                forall|j: int| 0 <= j < left ==> #[trigger] self.data@[j].k < key,
                forall|j: int| right <= j < self.data@.len() ==> #[trigger] self.data@[j].k > key,
            decreases right - left,
        {
            let mid = left + (right - left) / 2;
            let k = self.data[mid].k;
            if k < key {
                left = mid + 1;
            } else if k > key {
                right = mid;
            } else {
                proof {
                    lemma_lower_bound_at(self.data@, key, mid as int);
                }
                return Entry { map: self, index: mid, present: true };
            }
        }
        proof {
            lemma_lower_bound_gap(self.data@, key, left as int);
        }
        Entry { map: self, index: left, present: false }
    }

    /// The entry at the start of the map, holding nothing.
    pub fn get_first_blank_entry(&self) -> (r: Entry<'_, V>)
        ensures
            r.map == self,
            r.index == 0,
            !r.present,
    {
        Entry { map: self, index: 0, present: false }
    }
}

impl<V: Copy> BinarySearchedArrayMap<V> {
    /// Builds the map from (key, value) tuples sorted by strictly
    /// increasing key.
    pub fn from_sorted(items: &[(i64, V)]) -> (r: Self)
        requires
            forall|i: int, j: int| 0 <= i < j < items@.len() ==> #[trigger] items@[i].0 < #[trigger] items@[j].0,
        ensures
            r.wf(),
            r.data@.len() == items@.len(),
            forall|i: int|
                0 <= i < items@.len() ==> (#[trigger] r.data@[i]).k == items@[i].0 && r.data@[i].v == items@[i].1,
    {
        let mut data: Vec<Pair<i64, V>> = Vec::new();
        for i in 0..items.len()
            invariant
                data@.len() == i,
                forall|q: int| 0 <= q < i ==> (#[trigger] data@[q]).k == items@[q].0 && data@[q].v == items@[q].1,
        {
            let (k, v) = items[i];
            data.push(Pair { k, v });
        }
        assert(sorted_keys(data@)) by {
            assert forall|i: int, j: int| 0 <= i < j < data@.len() implies #[trigger] data@[i].k
                < #[trigger] data@[j].k by {
                assert(items@[i].0 < items@[j].0);
            }
        }
        Self::from_sorted_pairs(data)
    }
}

/// Where keys before `i` are below `key` and keys from `i` on are above
/// it, `key` would go at `i` and is absent.
proof fn lemma_lower_bound_gap<V>(s: Seq<Pair<i64, V>>, key: i64, i: int)
    requires
        0 <= i <= s.len(),
        forall|j: int| 0 <= j < i ==> #[trigger] s[j].k < key,
        forall|j: int| i <= j < s.len() ==> #[trigger] s[j].k > key,
    ensures
        lower_bound(s, key) == i,
        !has_key(s, key),
    decreases s.len(),
{
    if s.len() > 0 {
        if i < s.len() {
            lemma_lower_bound_gap(s.drop_last(), key, i);
        }
    }
    if has_key(s, key) {
        let j = choose|j: int| 0 <= j < s.len() && s[j].k == key;
        assert(j < i || j >= i);
    }
}

/// Where key `key` stands at position `i` of a sorted map, it would go at
/// `i` and is present.
proof fn lemma_lower_bound_at<V>(s: Seq<Pair<i64, V>>, key: i64, i: int)
    requires
        sorted_keys(s),
        0 <= i < s.len(),
        s[i].k == key,
    ensures
        lower_bound(s, key) == i,
        has_key(s, key),
    decreases s.len(),
{
    if s.len() - 1 > i {
        assert(sorted_keys(s.drop_last()));
        lemma_lower_bound_at(s.drop_last(), key, i);
        assert(s[i].k < s[s.len() - 1].k);
    } else {
        assert forall|j: int| 0 <= j < i implies #[trigger] s.drop_last()[j].k < key by {
            assert(s[j].k < s[i].k);
        }
        lemma_lower_bound_gap(s.drop_last(), key, i);
    }
}

impl<'a, V> Entry<'a, V> {
    /// A position the map can hold: present entries point at a pair.
    pub open spec fn wf(&self) -> bool {
        &&& self.map.wf()
        &&& self.index <= self.map.data@.len()
        &&& self.present ==> self.index < self.map.data@.len()
    }

    /// The pair at a present entry.
    pub fn get(&self) -> (r: Option<&'a Pair<i64, V>>)
        requires
            self.wf(),
        ensures
            r is Some <==> self.present,
            r matches Some(p) ==> *p == self.map.data@[self.index as int],
    {
        if self.present {
            Some(&self.map.data[self.index])
        } else {
            None
        }
    }

    pub fn present(&self) -> (r: bool)
        ensures
            r == self.present,
    {
        self.present
    }

    fn data(&self) -> (r: &'a Vec<Pair<i64, V>>)
        ensures
            r == &self.map.data,
    {
        &self.map.data
    }

    /// The entry for `search`, found by galloping outward from this entry's
    /// position (doubling the step) and then bisecting the bracket found;
    /// the same entry a fresh `entry(search)` gives.
    pub fn entry_near(&self, search: i64) -> (r: Entry<'a, V>)
        requires
            self.wf(),
        ensures
            r.map == self.map,
            r.index == lower_bound(self.map.data@, search),
            r.present == has_key(self.map.data@, search),
    {
        let ghost s = self.map.data@;
        let len = self.data().len();
        if len == 0 {
            proof {
                lemma_lower_bound_gap(s, search, 0);
            }
            return Entry { map: self.map, index: 0, present: false };
        }
        let mut left: usize = 0;
        let mut right: usize = len;
        let mut jump: usize = 1;
        let start = if self.index == len { len - 1 } else { self.index };
        let k = self.data()[start].k;
        if k == search {
            proof {
                lemma_lower_bound_at(s, search, start as int);
            }
            return Entry { map: self.map, index: start, present: true };
        } else if k > search {
            right = start;
            while right > jump
                invariant
                    sorted_keys(s),
                    s == self.map.data@,
                    len == s.len(),
                    left <= right <= len,
                    jump >= 1,
                    forall|j: int| 0 <= j < left ==> #[trigger] s[j].k < search,
                    forall|j: int| right <= j < len ==> #[trigger] s[j].k > search,
                decreases right,
            {
                let point = right - jump;
                let pk = self.data()[point].k;
                if pk == search {
                    proof {
                        lemma_lower_bound_at(s, search, point as int);
                    }
                    return Entry { map: self.map, index: point, present: true };
                } else if pk > search {
                    proof {
                        assert forall|j: int| point <= j < len implies #[trigger] s[j].k > search by {
                            if j > point {
                                assert(s[point as int].k < s[j].k);
                            }
                        }
                    }
                    right = point;
                    if jump <= usize::MAX - jump {
                        jump = jump + jump;
                    }
                } else {
                    proof {
                        assert forall|j: int| 0 <= j < point + 1 implies #[trigger] s[j].k < search by {
                            if j < point {
                                assert(s[j].k < s[point as int].k);
                            }
                        }
                    }
                    left = point + 1;
                    break;
                }
            }
        } else {
            proof {
                assert forall|j: int| 0 <= j < start + 1 implies #[trigger] s[j].k < search by {
                    if j < start {
                        assert(s[j].k < s[start as int].k);
                    }
                }
            }
            left = start + 1;
            let mut base = start;
            while jump < right - base
                invariant
                    sorted_keys(s),
                    s == self.map.data@,
                    len == s.len(),
                    base < left,
                    left == base + 1,
                    left <= right <= len,
                    jump >= 1,
                    forall|j: int| 0 <= j < left ==> #[trigger] s[j].k < search,
                    forall|j: int| right <= j < len ==> #[trigger] s[j].k > search,
                decreases right - base,
            {
                let point = base + jump;
                let pk = self.data()[point].k;
                if pk == search {
                    proof {
                        lemma_lower_bound_at(s, search, point as int);
                    }
                    return Entry { map: self.map, index: point, present: true };
                } else if pk > search {
                    proof {
                        assert forall|j: int| point <= j < len implies #[trigger] s[j].k > search by {
                            if j > point {
                                assert(s[point as int].k < s[j].k);
                            }
                        }
                    }
                    right = point;
                    break;
                } else {
                    proof {
                        assert forall|j: int| 0 <= j < point + 1 implies #[trigger] s[j].k < search by {
                            if j < point {
                                assert(s[j].k < s[point as int].k);
                            }
                        }
                    }
                    base = point;
                    left = point + 1;
                    if jump <= usize::MAX - jump {
                        jump = jump + jump;
                    }
                }
            }
        }
        while left < right
            invariant
                sorted_keys(s),
                s == self.map.data@,
                len == s.len(),
                left <= right <= len,
                forall|j: int| 0 <= j < left ==> #[trigger] s[j].k < search,
                forall|j: int| right <= j < len ==> #[trigger] s[j].k > search,
            decreases right - left,
        {
            let mid = left + (right - left) / 2;
            let mk = self.data()[mid].k;
            if mk < search {
                proof {
                    assert forall|j: int| 0 <= j < mid + 1 implies #[trigger] s[j].k < search by {
                        if j < mid {
                            assert(s[j].k < s[mid as int].k);
                        }
                    }
                }
                left = mid + 1;
            } else if mk > search {
                proof {
                    assert forall|j: int| mid <= j < len implies #[trigger] s[j].k > search by {
                        if j > mid {
                            assert(s[mid as int].k < s[j].k);
                        }
                    }
                }
                right = mid;
            } else {
                proof {
                    lemma_lower_bound_at(s, search, mid as int);
                }
                return Entry { map: self.map, index: mid, present: true };
            }
        }
        proof {
            lemma_lower_bound_gap(s, search, left as int);
        }
        Entry { map: self.map, index: left, present: false }
    }
}

} // verus!
