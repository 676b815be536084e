//! Keys held in chunks of eight (one vector register each) beside their
//! values, in strictly increasing order.

use vstd::prelude::*;

verus! {

/// Sorted keys in chunks of eight, and the value for each key.
pub struct Bsam2<V> {
    pub keys: Vec<[u64; 8]>,
    pub vals: Vec<V>,
}

/// Key `i` of the chunked keys.
pub open spec fn flat_key(chunks: Seq<[u64; 8]>, i: int) -> u64 {
    chunks[i / 8]@[i % 8]
}

/// How many dummy keys fill up the last chunk of `n` keys.
pub open spec fn padding(n: int) -> int {
    if n % 8 == 0 {
        0
    } else {
        8 - n % 8
    }
}

pub open spec fn increasing<V>(items: Seq<(u64, V)>) -> bool {
    forall|i: int, j: int| 0 <= i < j < items.len() ==> #[trigger] items[i].0 < #[trigger] items[j].0
}

/// The items can be chunked: keys strictly increasing, and room after the
/// last key for the dummy keys that fill the last chunk.
pub open spec fn chunkable<V>(items: Seq<(u64, V)>) -> bool {
    &&& increasing(items)
    &&& (padding(items.len() as int) == 0 || items.last().0 + padding(items.len() as int) <= u64::MAX)
}

/// Key `i` after chunking: an item's key, or a dummy one past the last.
pub open spec fn padded_key<V>(items: Seq<(u64, V)>, i: int) -> int {
    if i < items.len() {
        items[i].0 as int
    } else {
        items.last().0 + (i - items.len() + 1)
    }
}

impl<V: Copy> Bsam2<V> {
    /// Chunks the items' keys, filling the last chunk with keys that count
    /// up from the last one, each with the value `dummy`; `None` when the
    /// keys do not increase strictly or leave no room for the filling.
    pub fn from_iter(items: &[(u64, V)], dummy: V) -> (r: Option<Self>)
        ensures
            r is Some <==> chunkable(items@),
            r matches Some(b) ==> {
                let n = items@.len() as int;
                let total = n + padding(n);
                &&& b.keys@.len() * 8 == total
                &&& b.vals@.len() == total
                &&& forall|i: int| 0 <= i < total ==> flat_key(b.keys@, i) == padded_key(items@, i)
                &&& forall|i: int| 0 <= i < n ==> #[trigger] b.vals@[i] == items@[i].1
                &&& forall|i: int| n <= i < total ==> #[trigger] b.vals@[i] == dummy
            },
    {
        let n = items.len();
        let mut flat: Vec<u64> = Vec::new();
        let mut vals: Vec<V> = Vec::new();
        for i in 0..n
            invariant
                n == items@.len(),
                flat@.len() == i,
                vals@.len() == i,
                forall|q: int| 0 <= q < i ==> #[trigger] flat@[q] == items@[q].0,
                forall|q: int| 0 <= q < i ==> #[trigger] vals@[q] == items@[q].1,
        {
            let (k, v) = items[i];
            flat.push(k);
            vals.push(v);
        }
        let rem = n % 8;
        let pad: usize = if rem == 0 {
            0
        } else {
            8 - rem
        };
        if pad > 0 {
            let last = items[n - 1].0;
            if last > u64::MAX - pad as u64 {
                return None;
            }
            let mut j: usize = 0;
            while j < pad
                invariant
                    n == items@.len(),
                    n > 0,
                    pad == padding(n as int),
                    pad <= 7,
                    last == items@.last().0,
                    last + pad <= u64::MAX,
                    j <= pad,
                    flat@.len() == n + j,
                    vals@.len() == n + j,
                    forall|q: int| 0 <= q < n + j ==> #[trigger] flat@[q] == padded_key(items@, q),
                    forall|q: int| 0 <= q < n ==> #[trigger] vals@[q] == items@[q].1,
                    forall|q: int| n <= q < n + j ==> #[trigger] vals@[q] == dummy,
                decreases pad - j,
            {
                flat.push(last + (j as u64) + 1);
                vals.push(dummy);
                j = j + 1;
            }
        }
        let total = flat.len();
        assert(total == n + padding(n as int));
        assert(total % 8 == 0);
        assert forall|q: int| 0 <= q < total implies #[trigger] flat@[q] == padded_key(items@, q) by {}
        let mut i: usize = 1;
        while i < total
            invariant
                n == items@.len(),
                total == n + padding(n as int),
                flat@.len() == total,
                vals@.len() == total,
                forall|q: int| 0 <= q < n ==> #[trigger] vals@[q] == items@[q].1,
                forall|q: int| n <= q < total ==> #[trigger] vals@[q] == dummy,
                1 <= i,
                forall|q: int| 0 <= q < total ==> #[trigger] flat@[q] == padded_key(items@, q),
                forall|a: int, b: int| 0 <= a < b < i && b < total ==> flat@[a] < flat@[b],
            decreases total - i,
        {
            if flat[i - 1] >= flat[i] {
                proof {
                    if i < n {
                        assert(items@[i - 1].0 >= items@[i as int].0);
                    }
                }
                return None;
            }
            i = i + 1;
        }
        proof {
            assert forall|a: int, b: int| 0 <= a < b < n implies #[trigger] items@[a].0 < #[trigger] items@[b].0 by {
                assert(flat@[a] < flat@[b]);
            }
        }
        let mut keys: Vec<[u64; 8]> = Vec::new();
        let chunks = total / 8;
        for c in 0..chunks
            invariant
                chunks * 8 == total,
                flat@.len() == total,
                n == items@.len(),
                total == n + padding(n as int),
                forall|q: int| 0 <= q < total ==> #[trigger] flat@[q] == padded_key(items@, q),
                vals@.len() == total,
                forall|q: int| 0 <= q < n ==> #[trigger] vals@[q] == items@[q].1,
                forall|q: int| n <= q < total ==> #[trigger] vals@[q] == dummy,
                keys@.len() == c,
                forall|q: int| 0 <= q < c * 8 ==> flat_key(keys@, q) == #[trigger] flat@[q],
        {
            let mut arr: [u64; 8] = [0u64; 8];
            let mut j: usize = 0;
            while j < 8
                invariant
                    chunks * 8 == total,
                    flat@.len() == total,
                    c < chunks,
                    j <= 8,
                    forall|q: int| 0 <= q < j ==> #[trigger] arr@[q] == flat@[c * 8 + q],
                decreases 8 - j,
            {
                arr[j] = flat[c * 8 + j];
                j = j + 1;
            }
            let ghost before = keys@;
            keys.push(arr);
            proof {
                assert forall|q: int| 0 <= q < (c + 1) * 8 implies flat_key(keys@, q) == #[trigger] flat@[q] by {
                    let qc = q / 8;
                    let qr = q % 8;
                    assert(q == qc * 8 + qr);
                    if qc < c {
                        assert(keys@[qc] == before[qc]);
                        assert(flat_key(before, q) == flat@[q]);
                    } else {
                        assert(qc == c);
                    }
                }
            }
        }
        proof {
            assert(keys@.len() * 8 == total);
            assert forall|q: int| 0 <= q < total implies flat_key(keys@, q) == padded_key(items@, q) by {
                assert(flat_key(keys@, q) == flat@[q]);
            }
        }
        Some(Bsam2 { keys, vals })
    }
}

impl<V> Bsam2<V> {
    /// The key chunks.
    pub fn simd_keys(&self) -> (r: &[[u64; 8]])
        ensures
            r@ == self.keys@,
    {
        self.keys.as_slice()
    }

    /// Every key, chunk after chunk.
    pub fn keys(&self) -> (r: Vec<u64>)
        requires
            self.keys@.len() * 8 <= usize::MAX,
        ensures
            r@.len() == self.keys@.len() * 8,
            forall|i: int| 0 <= i < r@.len() ==> #[trigger] r@[i] == flat_key(self.keys@, i),
    {
        let mut out: Vec<u64> = Vec::new();
        let mut it = KeysIter { keys: &self.keys, idx: 0 };
        let total = self.keys.len() * 8;
        while out.len() < total
            invariant
                it.keys@ == self.keys@,
                total == self.keys@.len() * 8,
                it.idx == out@.len(),
                out@.len() <= total,
                forall|i: int| 0 <= i < out@.len() ==> #[trigger] out@[i] == flat_key(self.keys@, i),
            decreases total - out@.len(),
        {
            match it.next() {
                Some(k) => out.push(k),
                None => {
                    return out;
                },
            }
        }
        out
    }
}

/// A walk over chunked keys, one key at a time.
pub struct KeysIter<'a> {
    pub keys: &'a Vec<[u64; 8]>,
    pub idx: usize,
}

impl<'a> KeysIter<'a> {
    /// The next key, if any.
    pub fn next(&mut self) -> (r: Option<u64>)
        requires
            old(self).keys@.len() * 8 <= usize::MAX,
            old(self).idx < usize::MAX,
        ensures
            final(self).keys == old(self).keys,
            final(self).idx == old(self).idx + 1,
            r == (if old(self).idx < old(self).keys@.len() * 8 {
                Some(flat_key(old(self).keys@, old(self).idx as int))
            } else {
                None
            }),
    {
        let chunk = self.idx / 8;
        let res = if chunk < self.keys.len() {
            Some(self.keys[chunk][self.idx % 8])
        } else {
            None
        };
        self.idx = self.idx + 1;
        res
    }
}

} // verus!
