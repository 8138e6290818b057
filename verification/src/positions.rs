//! Maps and sets keyed by grid positions. A position is packed into one
//! `u64` key, a bijection between `(i32, i32)` and `u64`, so that the standard
//! hash tables, whose behaviour vstd specifies for integer keys, can hold them.

use crate::map::Pos;
use std::collections::HashMap;
use std::collections::HashSet;
use vstd::prelude::*;

verus! {

/// The packed key of a position: the x coordinate, shifted to be
/// non-negative, in the high 32 bits and the shifted y coordinate in the low
/// 32 bits.
pub open spec fn pos_key(p: Pos) -> u64 {
    ((p.x as int + 0x8000_0000) * 0x1_0000_0000 + (p.y as int + 0x8000_0000)) as u64
}

/// The position a packed key stands for.
pub open spec fn key_pos(k: u64) -> Pos {
    Pos {
        x: (k as int / 0x1_0000_0000 - 0x8000_0000) as i32,
        y: (k as int % 0x1_0000_0000 - 0x8000_0000) as i32,
    }
}

/// Unpacking a packed position gives the position back.
pub proof fn lemma_pos_key_inverse(p: Pos)
    ensures
        key_pos(pos_key(p)) == p,
{
    let a = p.x as int + 0x8000_0000;
    let b = p.y as int + 0x8000_0000;
    assert(0 <= a < 0x1_0000_0000);
    assert(0 <= b < 0x1_0000_0000);
    assert((a * 0x1_0000_0000 + b) / 0x1_0000_0000 == a) by (nonlinear_arith)
        requires
            0 <= b < 0x1_0000_0000,
    ;
    assert((a * 0x1_0000_0000 + b) % 0x1_0000_0000 == b) by (nonlinear_arith)
        requires
            0 <= b < 0x1_0000_0000,
    ;
}

/// Packing an unpacked key gives the key back.
pub proof fn lemma_key_pos_inverse(k: u64)
    ensures
        pos_key(key_pos(k)) == k,
{
    let a = k as int / 0x1_0000_0000;
    let b = k as int % 0x1_0000_0000;
    assert(k as int == a * 0x1_0000_0000 + b && 0 <= a < 0x1_0000_0000 && 0 <= b < 0x1_0000_0000)
        by (nonlinear_arith)
        requires
            0 <= k < 0x1_0000_0000_0000_0000,
            a == k as int / 0x1_0000_0000,
            b == k as int % 0x1_0000_0000,
    ;
}

/// Distinct positions have distinct keys.
pub proof fn lemma_pos_key_injective(p: Pos, q: Pos)
    ensures
        pos_key(p) == pos_key(q) <==> p == q,
{
    lemma_pos_key_inverse(p);
    lemma_pos_key_inverse(q);
}

/// Packs a position into its key.
pub fn key_of(p: Pos) -> (k: u64)
    ensures
        k == pos_key(p),
{
    let hi = (p.x as i64 + 0x8000_0000) as u64;
    let lo = (p.y as i64 + 0x8000_0000) as u64;
    hi * 0x1_0000_0000 + lo
}

/// Unpacks a key into the position it stands for.
pub fn pos_of_key(k: u64) -> (p: Pos)
    ensures
        p == key_pos(k),
{
    let hi = (k / 0x1_0000_0000) as i64;
    let lo = (k % 0x1_0000_0000) as i64;
    Pos { x: (hi - 0x8000_0000) as i32, y: (lo - 0x8000_0000) as i32 }
}

/// A finite map from positions to values.
pub struct PosMap<V> {
    inner: HashMap<u64, V>,
}

impl<V> View for PosMap<V> {
    type V = Map<Pos, V>;

    closed spec fn view(&self) -> Map<Pos, V> {
        Map::new(|p: Pos| self.inner@.contains_key(pos_key(p)), |p: Pos| self.inner@[pos_key(p)])
    }
}

impl<V> PosMap<V> {
    /// An empty map.
    pub fn new() -> (r: Self)
        ensures
            r@ == Map::<Pos, V>::empty(),
    {
        let r = PosMap { inner: HashMap::new() };
        assert(r@ =~= Map::<Pos, V>::empty());
        r
    }

    /// Whether `p` has a value.
    pub fn contains_key(&self, p: &Pos) -> (r: bool)
        ensures
            r == self@.contains_key(*p),
    {
        let k = key_of(*p);
        self.inner.contains_key(&k)
    }

    /// The value at `p`, if any.
    pub fn get(&self, p: &Pos) -> (r: Option<&V>)
        ensures
            match r {
                Some(v) => self@.contains_key(*p) && *v == self@[*p],
                None => !self@.contains_key(*p),
            },
    {
        let k = key_of(*p);
        self.inner.get(&k)
    }

    /// Sets the value at `p`, replacing any earlier one.
    pub fn insert(&mut self, p: Pos, v: V)
        ensures
            final(self)@ == old(self)@.insert(p, v),
    {
        let k = key_of(p);
        self.inner.insert(k, v);
        proof {
            assert forall|q: Pos| #[trigger] self@.contains_key(q) == old(self)@.insert(p, v).contains_key(q)
                by {
                lemma_pos_key_injective(p, q);
            }
            assert forall|q: Pos| self@.contains_key(q) implies #[trigger] self@[q] == old(self)@.insert(
                p,
                v,
            )[q] by {
                lemma_pos_key_injective(p, q);
            }
        }
        assert(self@ =~= old(self)@.insert(p, v));
    }

    /// Removes the value at `p`, if any, and returns it.
    pub fn remove(&mut self, p: &Pos) -> (r: Option<V>)
        ensures
            final(self)@ == old(self)@.remove(*p),
            match r {
                Some(v) => old(self)@.contains_key(*p) && v == old(self)@[*p],
                None => !old(self)@.contains_key(*p),
            },
    {
        let k = key_of(*p);
        let r = self.inner.remove(&k);
        proof {
            assert forall|q: Pos| #[trigger] self@.contains_key(q) == old(self)@.remove(*p).contains_key(q)
                by {
                lemma_pos_key_injective(*p, q);
            }
            assert forall|q: Pos| self@.contains_key(q) implies #[trigger] self@[q] == old(self)@.remove(
                *p,
            )[q] by {
                lemma_pos_key_injective(*p, q);
            }
        }
        assert(self@ =~= old(self)@.remove(*p));
        r
    }

    /// The positions that have a value, each once, in no particular order.
    pub fn positions(&self) -> (r: Vec<Pos>)
        ensures
            forall|p: Pos| self@.contains_key(p) <==> r@.contains(p),
            r@.no_duplicates(),
    {
        let mut r: Vec<Pos> = Vec::new();
        let ghost d = self.inner@.dom();
        for k in it: self.inner.keys()
            invariant
                d == self.inner@.dom(),
                it.seq().unref().to_set() == d,
                forall|p: Pos| #[trigger] r@.contains(p) ==> d.contains(pos_key(p)),
                it.seq().no_duplicates(),
                r@.len() == it.index(),
                forall|i: int| 0 <= i < it.index() ==> #[trigger] r@[i] == key_pos(*it.seq()[i]),
                forall|k: u64|
                    #[trigger] d.contains(k) ==> (r@.contains(key_pos(k)) || exists|i: int|
                        it.index() <= i < it.seq().len() && *it.seq()[i] == k),
                forall|a: int, b: int| 0 <= a < b < r@.len() ==> r@[a] != r@[b],
        {
            let ghost before = r@;
            let ghost idx = it.index();
            assert(*it.seq()[idx] == *k);
            let p = pos_of_key(*k);
            r.push(p);
            proof {
                assert forall|a: int, b: int| 0 <= a < b < r@.len() implies r@[a] != r@[b] by {
                    lemma_key_pos_inverse(*it.seq()[a]);
                    lemma_key_pos_inverse(*it.seq()[b]);
                    assert(it.seq()[a] != it.seq()[b]);
                }
                lemma_key_pos_inverse(*k);
                assert forall|q: Pos| #[trigger] r@.contains(q) implies d.contains(pos_key(q)) by {
                    if q != p {
                        assert(before.contains(q));
                    } else {
                        assert(it.seq().unref().to_set().contains(*k));
                    }
                }
                assert forall|kk: u64| #[trigger] d.contains(kk) implies (r@.contains(key_pos(kk)) || exists|i: int|
                    idx + 1 <= i < it.seq().len() && *it.seq()[i] == kk) by {
                    if before.contains(key_pos(kk)) {
                        let j = choose|j: int| 0 <= j < before.len() && before[j] == key_pos(kk);
                        assert(r@[j] == key_pos(kk));
                    } else if kk == *k {
                        assert(r@[r@.len() - 1] == key_pos(kk));
                    } else {
                        let i = choose|i: int| idx <= i < it.seq().len() && *it.seq()[i] == kk;
                        assert(i != idx);
                    }
                }
            }
        }
        proof {
            assert(r@.no_duplicates()) by {
                assert forall|a: int, b: int| 0 <= a < r@.len() && 0 <= b < r@.len() && a != b implies r@[a] != r@[b] by {
                    if a < b {
                        assert(r@[a] != r@[b]);
                    } else {
                        assert(r@[b] != r@[a]);
                    }
                }
            }
            assert forall|p: Pos| self@.contains_key(p) <==> r@.contains(p) by {
                lemma_pos_key_inverse(p);
                if self@.contains_key(p) {
                    assert(d.contains(pos_key(p)));
                }
            }
        }
        r
    }

    /// The map holds finitely many positions.
    pub proof fn lemma_finite(&self)
        ensures
            self@.dom().finite(),
    {
        let d = self.inner@.dom();
        assert(d.finite());
        d.lemma_map_finite(|k: u64| key_pos(k));
        assert forall|p: Pos| #[trigger] self@.dom().contains(p) == d.map(|k: u64| key_pos(k)).contains(
            p,
        ) by {
            lemma_pos_key_inverse(p);
            if d.map(|k: u64| key_pos(k)).contains(p) {
                let k = choose|k: u64| d.contains(k) && key_pos(k) == p;
                lemma_key_pos_inverse(k);
            }
        }
        assert(self@.dom() =~= d.map(|k: u64| key_pos(k)));
    }
}

/// A set of positions.
pub struct PosSet {
    inner: HashSet<u64>,
}

impl View for PosSet {
    type V = Set<Pos>;

    closed spec fn view(&self) -> Set<Pos> {
        Set::new(|p: Pos| self.inner@.contains(pos_key(p)))
    }
}

impl PosSet {
    /// An empty set.
    pub fn new() -> (r: Self)
        ensures
            r@ == Set::<Pos>::empty(),
    {
        let r = PosSet { inner: HashSet::new() };
        assert(r@ =~= Set::<Pos>::empty());
        r
    }

    /// Whether `p` is in the set.
    pub fn contains(&self, p: &Pos) -> (r: bool)
        ensures
            r == self@.contains(*p),
    {
        let k = key_of(*p);
        self.inner.contains(&k)
    }

    /// Adds `p`; returns whether it was new.
    pub fn insert(&mut self, p: Pos) -> (r: bool)
        ensures
            final(self)@ == old(self)@.insert(p),
            r == !old(self)@.contains(p),
    {
        let k = key_of(p);
        let r = self.inner.insert(k);
        proof {
            assert forall|q: Pos| #[trigger] self@.contains(q) == old(self)@.insert(p).contains(q) by {
                lemma_pos_key_injective(p, q);
            }
        }
        assert(self@ =~= old(self)@.insert(p));
        r
    }
}

} // verus!
