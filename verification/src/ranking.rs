use vstd::prelude::*;

verus! {

/// A point met by a search, with the key of its distance to the query.
pub struct Hit {
    pub id: Seq<char>,
    pub distance: u32,
}

/// A point met by a search, with the key of its distance to the query.
/// Of two keys the smaller stands for the closer point.
#[derive(Debug)]
pub struct Neighbor {
    pub id: String,
    pub distance: u32,
}

impl View for Neighbor {
    type V = Hit;

    open spec fn view(&self) -> Hit {
        Hit { id: self.id@, distance: self.distance }
    }
}

/// A result list as a sequence of hits.
pub open spec fn hits(found: Seq<Neighbor>) -> Seq<Hit> {
    Seq::new(found.len(), |i: int| found[i]@)
}

/// A result list runs from the closest hit to the farthest.
pub open spec fn ascending(found: Seq<Hit>) -> bool {
    forall|i: int, j: int| 0 <= i <= j < found.len() ==> found[i].distance <= found[j].distance
}

/// Where a new hit goes: right behind the last hit that is at least as close.
pub open spec fn rank(found: Seq<Hit>, distance: u32) -> nat
    decreases found.len(),
{
    if found.len() == 0 {
        0
    } else if found.last().distance <= distance {
        found.len()
    } else {
        rank(found.drop_last(), distance)
    }
}

/// A result list takes a new hit while it holds fewer than `ef` hits, or when
/// the new hit is closer than the farthest one kept.
pub open spec fn admits(found: Seq<Hit>, distance: u32, ef: nat) -> bool {
    found.len() < ef || (found.len() > 0 && distance < found.last().distance)
}

/// The result list after a hit was put in its place and the list cut back to
/// `ef` hits.
pub open spec fn place(found: Seq<Hit>, hit: Hit, ef: nat) -> Seq<Hit> {
    let grown = found.insert(rank(found, hit.distance) as int, hit);
    if grown.len() > ef {
        grown.drop_last()
    } else {
        grown
    }
}

/// The rank of a distance lies within the list, every hit before it is at
/// least as close, and in an ascending list every hit from it on is farther.
pub proof fn lemma_rank_splits(found: Seq<Hit>, distance: u32)
    ensures
        rank(found, distance) <= found.len(),
        rank(found, distance) > 0 ==> found[rank(found, distance) - 1].distance <= distance,
        forall|i: int| rank(found, distance) <= i < found.len() ==> found[i].distance > distance,
        ascending(found) ==> forall|i: int|
            0 <= i < rank(found, distance) ==> found[i].distance <= distance,
    decreases found.len(),
{
    if found.len() > 0 && found.last().distance > distance {
        lemma_rank_splits(found.drop_last(), distance);
        assert(forall|i: int| 0 <= i < found.len() - 1 ==> found.drop_last()[i] == found[i]);
        if ascending(found) {
            assert(ascending(found.drop_last()));
        }
    }
}

/// Placing a hit keeps an ascending list ascending and within `ef` hits.
pub proof fn lemma_place_keeps_order(found: Seq<Hit>, hit: Hit, ef: nat)
    requires
        ascending(found),
        found.len() <= ef,
    ensures
        ascending(place(found, hit, ef)),
        place(found, hit, ef).len() <= ef,
        place(found, hit, ef).len() <= found.len() + 1,
{
    lemma_rank_splits(found, hit.distance);
    let p = rank(found, hit.distance) as int;
    let grown = found.insert(p, hit);
    assert forall|i: int, j: int| 0 <= i <= j < grown.len() implies grown[i].distance
        <= grown[j].distance by {
        if i < p && j > p {
            assert(grown[i] == found[i] && grown[j] == found[j - 1]);
        } else if i > p {
            assert(grown[i] == found[i - 1] && grown[j] == found[j - 1]);
        }
    }
}

/// Puts a hit into a result list at its rank and cuts the list back to `ef`
/// hits.
pub fn offer(found: &mut Vec<Neighbor>, candidate: Neighbor, ef: usize)
    ensures
        hits(final(found)@) == place(hits(old(found)@), candidate@, ef as nat),
{
    let ghost before = hits(found@);
    let mut p: usize = found.len();
    assert(before.take(p as int) == before);
    while p > 0 && found[p - 1].distance > candidate.distance
        invariant
            p <= found.len(),
            found@ == old(found)@,
            before == hits(found@),
            rank(before, candidate.distance) == rank(before.take(p as int), candidate.distance),
        decreases p,
    {
        proof {
            let head = before.take(p as int);
            assert(head.last() == before[p - 1]);
            assert(head.drop_last() == before.take(p - 1));
        }
        p -= 1;
    }
    proof {
        let head = before.take(p as int);
        if p > 0 {
            assert(head.last() == before[p - 1]);
        }
        assert(rank(head, candidate.distance) == p);
    }
    found.insert(p, candidate);
    assert(hits(found@) == before.insert(p as int, candidate@));
    if found.len() > ef {
        found.pop();
        assert(hits(found@) == before.insert(p as int, candidate@).drop_last());
    }
}

/// The distance key of a sign-and-magnitude bit pattern, the form in which
/// a 32-bit real number is stored. Patterns with the sign bit set get the
/// lower half of the keys, in the reverse of their own order; the others get
/// the upper half, in their own order.
pub open spec fn key_of(bits: u32) -> u32 {
    if bits & 0x8000_0000 != 0 {
        !bits
    } else {
        bits | 0x8000_0000
    }
}

/// The bit pattern that a distance key stands for.
pub open spec fn bits_of(key: u32) -> u32 {
    if key & 0x8000_0000 != 0 {
        key & 0x7fff_ffff
    } else {
        !key
    }
}

/// Computes the distance key of a bit pattern.
pub fn distance_key(bits: u32) -> (key: u32)
    ensures
        key == key_of(bits),
{
    if bits & 0x8000_0000 != 0 {
        !bits
    } else {
        bits | 0x8000_0000
    }
}

/// Computes the bit pattern that a distance key stands for.
pub fn key_bits(key: u32) -> (bits: u32)
    ensures
        bits == bits_of(key),
{
    if key & 0x8000_0000 != 0 {
        key & 0x7fff_ffff
    } else {
        !key
    }
}

/// A key gives back the pattern it was made from, and a pattern the key.
pub proof fn lemma_key_round_trip(x: u32)
    ensures
        bits_of(key_of(x)) == x,
        key_of(bits_of(x)) == x,
{
    assert(x & 0x8000_0000 != 0 ==> (!x) & 0x8000_0000 == 0 && !(!x) == x) by (bit_vector);
    assert(x & 0x8000_0000 == 0 ==> (x | 0x8000_0000) & 0x8000_0000 != 0 && (x | 0x8000_0000)
        & 0x7fff_ffff == x) by (bit_vector);
    assert(x & 0x8000_0000 != 0 ==> (x & 0x7fff_ffff) & 0x8000_0000 == 0 && (x & 0x7fff_ffff)
        | 0x8000_0000 == x) by (bit_vector);
    assert(x & 0x8000_0000 == 0 ==> (!x) & 0x8000_0000 != 0 && !(!x) == x) by (bit_vector);
}

/// Keys order the patterns as sign and magnitude do: of two patterns
/// without the sign bit the smaller has the smaller key, of two with it the
/// larger has the smaller key, and one with the sign bit has a smaller key
/// than one without.
pub proof fn lemma_key_order(a: u32, b: u32)
    ensures
        a & 0x8000_0000 == 0 && b & 0x8000_0000 == 0 ==> (key_of(a) < key_of(b) <==> a < b),
        a & 0x8000_0000 != 0 && b & 0x8000_0000 != 0 ==> (key_of(a) < key_of(b) <==> a > b),
        a & 0x8000_0000 != 0 && b & 0x8000_0000 == 0 ==> key_of(a) < key_of(b),
{
    assert(a & 0x8000_0000 == 0 && b & 0x8000_0000 == 0 ==> ((a | 0x8000_0000) < (b | 0x8000_0000)
        <==> a < b)) by (bit_vector);
    assert(a & 0x8000_0000 != 0 && b & 0x8000_0000 != 0 ==> (!a < !b <==> a > b)) by (bit_vector);
    assert(a & 0x8000_0000 != 0 && b & 0x8000_0000 == 0 ==> !a < (b | 0x8000_0000))
        by (bit_vector);
}

} // verus!
