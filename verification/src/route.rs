use vstd::prelude::*;
use std::collections::HashMap;
use vstd::std_specs::iter::IteratorSpec;
use crate::geometry::Position;

verus! {

broadcast use vstd::std_specs::hash::group_hash_axioms;

/// A search node: cost from the start, heuristic cost to the target, and
/// the position it was reached from.
#[derive(Clone, Copy)]
pub struct Node {
    /// distance from starting node
    pub g_cost: i32,
    /// distance from end node
    pub h_cost: i32,
    pub parent: Option<Position>,
}

/// Total cost `g + h` of a node, in mathematical integers.
pub open spec fn f_of(n: Node) -> int {
    n.g_cost + n.h_cost
}

impl Node {
    /// `g_cost + h_cost`, which must fit in i32.
    pub fn f_cost(&self) -> (f: i32)
        requires
            i32::MIN <= f_of(*self) <= i32::MAX,
        ensures
            f == f_of(*self),
    {
        self.g_cost + self.h_cost
    }
}

/// The 64-bit key under which a position is stored: x in the high half, y in the low half.
pub open spec fn key_of(p: Position) -> u64 {
    ((p.x as u32 as u64) << 32u64) | (p.y as u32 as u64)
}

/// The position that a key encodes.
pub open spec fn pos_of(k: u64) -> Position {
    Position { x: (k >> 32u64) as u32 as i32, y: k as u32 as i32 }
}

proof fn lemma_key_roundtrip_bits(x: i32, y: i32)
    ensures
        ((((x as u32 as u64) << 32u64) | (y as u32 as u64)) >> 32u64) as u32 as i32 == x,
        ((((x as u32 as u64) << 32u64) | (y as u32 as u64)) as u32 as i32) == y,
{
    assert(((((x as u32 as u64) << 32u64) | (y as u32 as u64)) >> 32u64) as u32 as i32 == x)
        by (bit_vector);
    assert(((((x as u32 as u64) << 32u64) | (y as u32 as u64)) as u32 as i32) == y)
        by (bit_vector);
}

proof fn lemma_pos_roundtrip_bits(k: u64)
    ensures
        ((((k >> 32u64) as u32 as i32) as u32 as u64) << 32u64) | ((k as u32 as i32) as u32 as u64)
            == k,
{
    assert(((((k >> 32u64) as u32 as i32) as u32 as u64) << 32u64) | ((k as u32 as i32) as u32
        as u64) == k) by (bit_vector);
}

/// Decoding a key gives back the position it was made from.
pub broadcast proof fn lemma_pos_of_key_of(p: Position)
    ensures
        #[trigger] pos_of(key_of(p)) == p,
{
    lemma_key_roundtrip_bits(p.x, p.y);
}

/// Encoding a decoded key gives back the key: every key names exactly one position.
pub broadcast proof fn lemma_key_of_pos_of(k: u64)
    ensures
        #[trigger] key_of(pos_of(k)) == k,
{
    lemma_pos_roundtrip_bits(k);
}

pub broadcast group group_position_keys {
    lemma_pos_of_key_of,
    lemma_key_of_pos_of,
}

fn pos_key(p: Position) -> (k: u64)
    ensures
        k == key_of(p),
{
    ((p.x as u32 as u64) << 32u64) | (p.y as u32 as u64)
}

fn key_pos(k: u64) -> (p: Position)
    ensures
        p == pos_of(k),
{
    Position { x: (k >> 32u64) as u32 as i32, y: k as u32 as i32 }
}

/// The nodes of a search, keyed by position.
pub struct Route {
    map: HashMap<u64, Node>,
}

impl View for Route {
    type V = Map<Position, Node>;

    closed spec fn view(&self) -> Map<Position, Node> {
        Map::new(|p: Position| self.map@.contains_key(key_of(p)), |p: Position| self.map@[key_of(p)])
    }
}

impl Route {
    /// An empty set of nodes.
    pub fn new() -> (r: Route)
        ensures
            r@ == Map::<Position, Node>::empty(),
    {
        let r = Route { map: HashMap::new() };
        assert(r@ =~= Map::<Position, Node>::empty());
        r
    }

    /// Whether a node is stored at `p`.
    pub fn contains(&self, p: &Position) -> (b: bool)
        ensures
            b == self@.contains_key(*p),
    {
        let k = pos_key(*p);
        self.map.contains_key(&k)
    }

    /// The node stored at `p`, if any.
    pub fn get(&self, p: &Position) -> (r: Option<Node>)
        ensures
            r matches Some(n) ==> self@.contains_key(*p) && self@[*p] == n,
            r is None ==> !self@.contains_key(*p),
    {
        let k = pos_key(*p);
        match self.map.get(&k) {
            Some(n) => Some(*n),
            None => None,
        }
    }

    /// Stores `n` at `p`, replacing any node there.
    pub fn insert(&mut self, p: Position, n: Node)
        ensures
            final(self)@ == old(self)@.insert(p, n),
    {
        broadcast use group_position_keys;

        let k = pos_key(p);
        self.map.insert(k, n);
        assert forall|q: Position| key_of(q) == key_of(p) implies q == p by {
            lemma_pos_of_key_of(q);
            lemma_pos_of_key_of(p);
        }
        assert(self@ =~= old(self)@.insert(p, n));
    }

    /// Removes the node at `p`, if any.
    pub fn remove(&mut self, p: &Position)
        ensures
            final(self)@ == old(self)@.remove(*p),
    {
        broadcast use group_position_keys;

        let k = pos_key(*p);
        self.map.remove(&k);
        assert forall|q: Position| key_of(q) == key_of(*p) implies q == *p by {
            lemma_pos_of_key_of(q);
            lemma_pos_of_key_of(*p);
        }
        assert(self@ =~= old(self)@.remove(*p));
    }

    /// All stored nodes with their positions, each position once.
    pub fn entries(&self) -> (v: Vec<(Position, Node)>)
        ensures
            forall|i: int|
                0 <= i < v@.len() ==> self@.contains_key(#[trigger] v@[i].0) && self@[v@[i].0]
                    == v@[i].1,
            forall|p: Position|
                #[trigger] self@.contains_key(p) ==> exists|i: int|
                    0 <= i < v@.len() && #[trigger] v@[i].0 == p,
            forall|i: int, j: int| 0 <= i < j < v@.len() ==> v@[i].0 != v@[j].0,
    {
        broadcast use group_position_keys;

        let mut v: Vec<(Position, Node)> = Vec::new();
        let ghost all = vstd::std_specs::hash::spec_hash_map_iter(&self.map).remaining();
        for (k, n) in it: self.map.iter()
            invariant
                it.seq() == all,
                v@.len() == it.index(),
                forall|i: int|
                    0 <= i < v@.len() ==> v@[i].0 == pos_of(*all[i].0) && v@[i].1 == *all[i].1,
        {
            let p = key_pos(*k);
            v.push((p, *n));
        }
        proof {
            assert(all.len() == v@.len());
            assert forall|i: int|
                0 <= i < v@.len() implies self@.contains_key(#[trigger] v@[i].0) && self@[v@[i].0]
                == v@[i].1 by {
                assert(self.map@.contains_key(*all[i].0));
            }
            assert forall|p: Position| #[trigger] self@.contains_key(p) implies exists|i: int|
                0 <= i < v@.len() && #[trigger] v@[i].0 == p by {
                let k = key_of(p);
                assert(all.contains((&k, &self.map@[k])));
                let i = choose|i: int| 0 <= i < all.len() && all[i] == (&k, &self.map@[k]);
                assert(v@[i].0 == p);
            }
            assert forall|i: int, j: int| 0 <= i < j < v@.len() implies v@[i].0 != v@[j].0 by {
                if v@[i].0 == v@[j].0 {
                    let ki = *all[i].0;
                    let kj = *all[j].0;
                    assert(ki == key_of(pos_of(ki)));
                    assert(kj == key_of(pos_of(kj)));
                    assert(ki == kj);
                    assert(*all[i].1 == self.map@[ki]);
                    assert(*all[j].1 == self.map@[kj]);
                    assert(all[i] == all[j]);
                }
            }
        }
        v
    }
}

} // verus!
