//! Hash collections keyed by grid points.
//!
//! A point is stored under an integer key that packs its two coordinates,
//! so that the collections can be reasoned about as sets and maps of
//! points.
use crate::geometry::Point;
use std::collections::HashMap;
use vstd::prelude::*;

verus! {

broadcast use vstd::std_specs::hash::group_hash_axioms;

/// The key under which `p` is stored: both coordinates shifted to be
/// non-negative, `x` in the upper and `y` in the lower 32 bits.
pub open spec fn key_of(p: Point) -> u64 {
    ((p.x + 0x8000_0000) * 0x1_0000_0000 + (p.y + 0x8000_0000)) as u64
}

/// The point that is stored under the key `k`.
pub open spec fn point_at(k: u64) -> Point {
    Point {
        x: (k / 0x1_0000_0000 - 0x8000_0000) as i32,
        y: (k % 0x1_0000_0000 - 0x8000_0000) as i32,
    }
}

/// Keys and points correspond one to one.
pub broadcast proof fn lemma_key_round_trip(p: Point)
    ensures
        point_at(#[trigger] key_of(p)) == p,
{
}

/// Keys and points correspond one to one.
pub broadcast proof fn lemma_point_round_trip(k: u64)
    ensures
        key_of(#[trigger] point_at(k)) == k,
{
}

/// The key under which `p` is stored.
pub fn encode(p: Point) -> (k: u64)
    ensures
        k == key_of(p),
{
    let x: u64 = (p.x as i64 + 0x8000_0000) as u64;
    let y: u64 = (p.y as i64 + 0x8000_0000) as u64;
    x * 0x1_0000_0000 + y
}

/// The point that is stored under the key `k`.
pub fn decode(k: u64) -> (p: Point)
    ensures
        p == point_at(k),
{
    let x: i64 = (k / 0x1_0000_0000) as i64 - 0x8000_0000;
    let y: i64 = (k % 0x1_0000_0000) as i64 - 0x8000_0000;
    Point { x: x as i32, y: y as i32 }
}

/// A finite set of grid points.
pub struct PointSet {
    /// The keys of the points in the set. A map to the unit type, whose
    /// domain is known to be finite.
    keys: HashMap<u64, ()>,
}

impl View for PointSet {
    type V = Set<Point>;

    closed spec fn view(&self) -> Set<Point> {
        Set::new(|p: Point| self.keys@.contains_key(key_of(p)))
    }
}

impl PointSet {
    /// An empty set.
    pub fn new() -> (s: PointSet)
        ensures
            s@ == Set::<Point>::empty(),
    {
        let s = PointSet { keys: HashMap::new() };
        assert(s@ =~= Set::<Point>::empty());
        s
    }

    /// Adds `p`, and says whether it was absent.
    pub fn insert(&mut self, p: Point) -> (added: bool)
        ensures
            final(self)@ == old(self)@.insert(p),
            added == !old(self)@.contains(p),
    {
        let previous = self.keys.insert(encode(p), ());
        proof {
            assert forall|q: Point| #[trigger] self@.contains(q) == old(self)@.insert(p).contains(q) by {
                lemma_key_round_trip(q);
                lemma_key_round_trip(p);
            }
            assert(self@ =~= old(self)@.insert(p));
        }
        previous.is_none()
    }

    /// Whether `p` is in the set.
    pub fn contains(&self, p: Point) -> (b: bool)
        ensures
            b == self@.contains(p),
    {
        let k = encode(p);
        self.keys.contains_key(&k)
    }

    /// The number of points in the set.
    pub fn len(&self) -> (n: usize)
        ensures
            n == self@.len(),
            self@.finite(),
    {
        proof {
            lemma_point_set_len(self.keys@.dom());
            assert(self@ =~= self.keys@.dom().map(|k: u64| point_at(k))) by {
                assert forall|p: Point| self@.contains(p) == self.keys@.dom().map(
                    |k: u64| point_at(k),
                ).contains(p) by {
                    lemma_key_round_trip(p);
                    if self@.contains(p) {
                        assert(self.keys@.dom().contains(key_of(p)));
                    }
                }
            }
        }
        self.keys.len()
    }

    /// The points of the set, each once, in no particular order.
    pub fn points(&self) -> (points: Vec<Point>)
        ensures
            points@.no_duplicates(),
            forall|p: Point| points@.contains(p) <==> self@.contains(p),
    {
        let mut points: Vec<Point> = Vec::new();
        let ghost stored = vstd::std_specs::iter::IteratorSpec::remaining(
            &vstd::std_specs::hash::spec_keys_iter(&self.keys),
        );
        for key in it: self.keys.keys()
            invariant
                points@.len() == it.index(),
                stored == it.seq(),
                it.seq().unref().to_set() == self.keys@.dom(),
                it.seq().no_duplicates(),
                forall|i: int| 0 <= i < points@.len() ==> points@[i] == point_at(*it.seq()[i]),
        {
            points.push(decode(*key));
        }
        proof {
            lemma_decoded_keys(stored, self.keys@.dom(), points@);
            assert forall|p: Point| points@.contains(p) <==> self@.contains(p) by {
                lemma_key_round_trip(p);
            }
        }
        points
    }
}

/// The points under the keys of a map, each key taken once, are the points
/// whose keys the map holds, each once.
proof fn lemma_decoded_keys(stored: Seq<&u64>, keys: Set<u64>, points: Seq<Point>)
    requires
        stored.unref().to_set() == keys,
        stored.no_duplicates(),
        points.len() == stored.len(),
        forall|i: int| 0 <= i < points.len() ==> points[i] == point_at(*stored[i]),
    ensures
        points.no_duplicates(),
        forall|p: Point| points.contains(p) <==> keys.contains(key_of(p)),
{
    assert forall|i: int, j: int|
        0 <= i < points.len() && 0 <= j < points.len() && i != j implies points[i]
        != points[j] by {
        lemma_point_round_trip(*stored[i]);
        lemma_point_round_trip(*stored[j]);
        assert(stored[i] != stored[j]);
    }
    assert forall|p: Point| points.contains(p) <==> keys.contains(key_of(p)) by {
        if points.contains(p) {
            let i = choose|i: int| 0 <= i < points.len() && points[i] == p;
            lemma_point_round_trip(*stored[i]);
            assert(stored.unref()[i] == *stored[i]);
            assert(stored.unref().to_set().contains(*stored[i]));
        }
        if keys.contains(key_of(p)) {
            lemma_key_round_trip(p);
            assert(stored.unref().to_set().contains(key_of(p)));
            let i = choose|i: int| 0 <= i < stored.unref().len() && stored.unref()[i] == key_of(p);
            assert(points[i] == p);
        }
    }
}

/// Decoding a finite set of keys gives as many points as there were keys.
proof fn lemma_point_set_len(keys: Set<u64>)
    requires
        keys.finite(),
    ensures
        keys.map(|k: u64| point_at(k)).finite(),
        keys.map(|k: u64| point_at(k)).len() == keys.len(),
{
    assert forall|a: u64, b: u64| #[trigger] point_at(a) == #[trigger] point_at(b) implies a == b by {
        lemma_point_round_trip(a);
        lemma_point_round_trip(b);
    }
    vstd::set_lib::lemma_map_size(keys, keys.map(|k: u64| point_at(k)), |k: u64| point_at(k));
}

/// A finite map from grid points to values.
pub struct PointMap<V> {
    entries: HashMap<u64, V>,
}

impl<V> View for PointMap<V> {
    type V = Map<Point, V>;

    closed spec fn view(&self) -> Map<Point, V> {
        Map::new(
            |p: Point| self.entries@.contains_key(key_of(p)),
            |p: Point| self.entries@[key_of(p)],
        )
    }
}

impl<V> PointMap<V> {
    /// An empty map.
    pub fn new() -> (m: PointMap<V>)
        ensures
            m@ == Map::<Point, V>::empty(),
    {
        let m = PointMap { entries: HashMap::new() };
        assert(m@ =~= Map::<Point, V>::empty());
        m
    }

    /// Stores `v` at `p`, replacing what was there.
    pub fn insert(&mut self, p: Point, v: V)
        ensures
            final(self)@ == old(self)@.insert(p, v),
    {
        self.entries.insert(encode(p), v);
        proof {
            assert forall|q: Point| #[trigger]
                self@.contains_key(q) == old(self)@.insert(p, v).contains_key(q) by {
                lemma_key_round_trip(q);
                lemma_key_round_trip(p);
            }
            assert forall|q: Point| #[trigger] self@.contains_key(q) implies self@[q] == old(
                self,
            )@.insert(p, v)[q] by {
                lemma_key_round_trip(q);
                lemma_key_round_trip(p);
            }
            assert(self@ =~= old(self)@.insert(p, v));
        }
    }

    /// The value stored at `p`, if any.
    pub fn get(&self, p: Point) -> (r: Option<&V>)
        ensures
            match r {
                Some(v) => self@.contains_key(p) && *v == self@[p],
                None => !self@.contains_key(p),
            },
    {
        let k = encode(p);
        self.entries.get(&k)
    }

    /// Whether a value is stored at `p`.
    pub fn contains_key(&self, p: Point) -> (b: bool)
        ensures
            b == self@.contains_key(p),
    {
        let k = encode(p);
        self.entries.contains_key(&k)
    }

    /// Removes what is stored at `p`, if anything.
    pub fn remove(&mut self, p: Point)
        ensures
            final(self)@ == old(self)@.remove(p),
    {
        let k = encode(p);
        self.entries.remove(&k);
        proof {
            assert forall|q: Point| #[trigger]
                self@.contains_key(q) == old(self)@.remove(p).contains_key(q) by {
                lemma_key_round_trip(q);
                lemma_key_round_trip(p);
            }
            assert(self@ =~= old(self)@.remove(p));
        }
    }

    /// The points at which a value is stored, each once, in no particular
    /// order.
    pub fn points(&self) -> (points: Vec<Point>)
        ensures
            points@.no_duplicates(),
            forall|p: Point| points@.contains(p) <==> self@.contains_key(p),
    {
        let mut points: Vec<Point> = Vec::new();
        let ghost stored = vstd::std_specs::iter::IteratorSpec::remaining(
            &vstd::std_specs::hash::spec_keys_iter(&self.entries),
        );
        for key in it: self.entries.keys()
            invariant
                points@.len() == it.index(),
                stored == it.seq(),
                it.seq().unref().to_set() == self.entries@.dom(),
                it.seq().no_duplicates(),
                forall|i: int| 0 <= i < points@.len() ==> points@[i] == point_at(*it.seq()[i]),
        {
            points.push(decode(*key));
        }
        proof {
            lemma_decoded_keys(stored, self.entries@.dom(), points@);
            assert forall|p: Point| points@.contains(p) <==> self@.contains_key(p) by {
                lemma_key_round_trip(p);
            }
        }
        points
    }
}

} // verus!
