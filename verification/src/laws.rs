use crate::error::HnswError;
use crate::graph::{lemma_strip_absent, PointView};
use crate::index::{HNSWIndex, IndexView, Snapshot};
use crate::ranking::{ascending, lemma_place_keeps_order, lemma_rank_splits, place, rank, Hit};
use crate::search::{expand, lemma_expand_shrinks, record, remaining, scan, seed, visit, walk, Walk};
use vstd::prelude::*;

verus! {

/// One thing that may happen to an index between two moments: a point is
/// stored, a point is deleted, or a request is refused and nothing changes.
pub open spec fn evolves(before: IndexView, after: IndexView) -> bool {
    ||| after == before
    ||| exists|id: Seq<char>, vector: Seq<u32>, level: nat|
        before.accepts(vector.len()) && after == #[trigger] before.with_point(id, vector, level)
    ||| exists|id: Seq<char>| #[trigger] before.deleted(id, after)
}

/// The first vector stored fixes the dimensionality: if it is not empty,
/// the index afterwards has its length as dimensionality and accepts
/// vectors of that length only.
pub proof fn lemma_first_add_fixes_dimension(
    v: IndexView,
    id: Seq<char>,
    vector: Seq<u32>,
    level: nat,
)
    requires
        v.dimensions == 0,
        vector.len() > 0,
    ensures
        v.with_point(id, vector, level).dimensions == vector.len(),
        forall|len: nat| #[trigger]
            v.with_point(id, vector, level).accepts(len) <==> len == vector.len(),
{
}

/// A dimensionality that is fixed stays fixed while points are stored and
/// deleted: in every later state of the index it is what it was, and vectors
/// of another length are refused.
pub proof fn lemma_dimension_stays(history: Seq<IndexView>, i: int)
    requires
        history.len() > 0,
        history[0].dimensions != 0,
        forall|j: int|
            0 <= j < history.len() - 1 ==> evolves(#[trigger] history[j], history[j + 1]),
        0 <= i < history.len(),
    ensures
        history[i].dimensions == history[0].dimensions,
        forall|len: nat| #[trigger] history[i].accepts(len) <==> len == history[0].dimensions,
    decreases i,
{
    if i > 0 {
        lemma_dimension_stays(history, i - 1);
        assert(evolves(history[i - 1], history[i - 1 + 1]));
    }
}

/// Storing a point under an identifier discards what the identifier owned
/// before: afterwards it owns an adjacency entry in exactly the layers up to
/// the new level, each of them empty. Every other adjacency entry is as it
/// was, and if the identifier was stored already, the number of points is
/// unchanged.
pub proof fn lemma_store_resets_memberships(
    v: IndexView,
    id: Seq<char>,
    vector: Seq<u32>,
    level: nat,
)
    requires
        v.wf(),
    ensures
        forall|l: int|
            0 <= l < v.with_point(id, vector, level).layers.len() ==> (#[trigger] v.with_point(
                id,
                vector,
                level,
            ).layers[l].contains_key(id) <==> l <= level),
        forall|l: int|
            0 <= l <= level ==> #[trigger] v.with_point(id, vector, level).layers[l][id]
                == Seq::<Seq<char>>::empty(),
        forall|l: int, other: Seq<char>|
            0 <= l < v.with_point(id, vector, level).layers.len() && other != id ==> (
            #[trigger] v.with_point(id, vector, level).layers[l].contains_key(other)
                <==> v.layer(l).contains_key(other)) && v.with_point(
                id,
                vector,
                level,
            ).layers[l][other] == v.layer(l)[other],
        v.points.contains_key(id) ==> v.with_point(id, vector, level).points.len()
            == v.points.len(),
        v.with_point(id, vector, level).points[id] == (PointView { vector, level }),
{
    let w = v.with_point(id, vector, level);
    if v.points.contains_key(id) {
        assert(w.points.dom() =~= v.points.dom());
    }
}

/// Loading a snapshot that was saved from an index succeeds, and the index
/// that loaded it then has the point count, the dimensionality and the size
/// of the index that saved it, and holds the same vector under every
/// identifier.
pub proof fn lemma_save_load_round_trip(
    source: HNSWIndex,
    snapshot: Snapshot,
    before: HNSWIndex,
    after: HNSWIndex,
    result: Result<(), HnswError>,
)
    requires
        source.wf(),
        source.saved_as(snapshot),
        HNSWIndex::loaded(before, snapshot, after, result),
    ensures
        result is Ok,
        after@ == source@,
        after@.stats() == source@.stats(),
        forall|id: Seq<char>|
            source@.points.contains_key(id) <==> #[trigger] after@.points.contains_key(id),
        forall|id: Seq<char>| #[trigger]
            source@.points.contains_key(id) ==> after@.points[id].vector
                == source@.points[id].vector,
{
}

/// After a point was deleted, its identifier names no point, owns no
/// adjacency entry in any layer, and stands in no neighbour list.
pub proof fn lemma_delete_is_complete(v: IndexView, id: Seq<char>, after: IndexView)
    requires
        v.deleted(id, after),
    ensures
        !after.points.contains_key(id),
        forall|l: int|
            0 <= l < after.layers.len() ==> !(#[trigger] after.layers[l]).contains_key(id),
        forall|l: int, k: Seq<char>|
            0 <= l < after.layers.len() && after.layers[l].contains_key(k) ==> !(
            #[trigger] after.layers[l][k]).contains(id),
{
    assert forall|l: int, k: Seq<char>|
        0 <= l < after.layers.len() && after.layers[l].contains_key(k) implies !(
    #[trigger] after.layers[l][k]).contains(id) by {
        lemma_strip_absent(v.layers[l][k], id);
    }
}

/// Every hit names a stored point and carries the distance key of that
/// point's vector.
pub open spec fn genuine(
    found: Seq<Hit>,
    points: Map<Seq<char>, PointView>,
    dist: spec_fn(Seq<u32>) -> u32,
) -> bool {
    forall|i: int|
        0 <= i < found.len() ==> points.contains_key((#[trigger] found[i]).id) && found[i].distance
            == dist(points[found[i].id].vector)
}

/// A result list is in order: closest first, at most `ef` hits, each of them
/// genuine.
pub open spec fn orderly(
    found: Seq<Hit>,
    points: Map<Seq<char>, PointView>,
    dist: spec_fn(Seq<u32>) -> u32,
    ef: nat,
) -> bool {
    ascending(found) && found.len() <= ef && genuine(found, points, dist)
}

/// Every hit of a list in which a hit was placed is that hit or was in the
/// list before.
pub proof fn lemma_place_members(found: Seq<Hit>, hit: Hit, ef: nat, i: int)
    requires
        0 <= i < place(found, hit, ef).len(),
    ensures
        place(found, hit, ef)[i] == hit || found.contains(place(found, hit, ef)[i]),
{
    lemma_rank_splits(found, hit.distance);
    let p = rank(found, hit.distance) as int;
    let grown = found.insert(p, hit);
    if i < p {
        assert(grown[i] == found[i]);
    } else if i > p {
        assert(grown[i] == found[i - 1]);
    }
}

/// Meeting a neighbour keeps the result list in order.
pub proof fn lemma_visit_orderly(
    w: Walk,
    id: Seq<char>,
    points: Map<Seq<char>, PointView>,
    dist: spec_fn(Seq<u32>) -> u32,
    ef: nat,
)
    requires
        orderly(w.found, points, dist, ef),
    ensures
        orderly(visit(w, id, points, dist, ef).found, points, dist, ef),
{
    let after = visit(w, id, points, dist, ef);
    if after.found != w.found {
        let hit = Hit { id, distance: dist(points[id].vector) };
        assert(after == record(w, id, hit.distance, ef));
        lemma_place_keeps_order(w.found, hit, ef);
        assert forall|i: int| 0 <= i < after.found.len() implies points.contains_key(
            (#[trigger] after.found[i]).id,
        ) && after.found[i].distance == dist(points[after.found[i].id].vector) by {
            lemma_place_members(w.found, hit, ef, i);
            if after.found[i] != hit {
                let j = choose|j: int| 0 <= j < w.found.len() && w.found[j] == after.found[i];
                assert(points.contains_key(w.found[j].id));
            }
        }
    }
}

/// Meeting a list of neighbours keeps the result list in order.
pub proof fn lemma_scan_orderly(
    w: Walk,
    neighbors: Seq<Seq<char>>,
    points: Map<Seq<char>, PointView>,
    dist: spec_fn(Seq<u32>) -> u32,
    ef: nat,
)
    requires
        orderly(w.found, points, dist, ef),
    ensures
        orderly(scan(w, neighbors, points, dist, ef).found, points, dist, ef),
    decreases neighbors.len(),
{
    if neighbors.len() > 0 {
        lemma_scan_orderly(w, neighbors.drop_last(), points, dist, ef);
        lemma_visit_orderly(
            scan(w, neighbors.drop_last(), points, dist, ef),
            neighbors.last(),
            points,
            dist,
            ef,
        );
    }
}

/// A walk that starts with its result list in order ends with it in order.
pub proof fn lemma_walk_orderly(
    w: Walk,
    layer: Map<Seq<char>, Seq<Seq<char>>>,
    points: Map<Seq<char>, PointView>,
    dist: spec_fn(Seq<u32>) -> u32,
    ef: nat,
)
    requires
        layer.dom().finite(),
        orderly(w.found, points, dist, ef),
    ensures
        orderly(walk(w, layer, points, dist, ef), points, dist, ef),
    decreases remaining(w, layer),
{
    if w.stack.len() > 0 {
        let rest = Walk { stack: w.stack.drop_last(), ..w };
        if layer.contains_key(w.stack.last()) {
            lemma_scan_orderly(rest, layer[w.stack.last()], points, dist, ef);
        }
        lemma_expand_shrinks(w, layer, points, dist, ef);
        lemma_walk_orderly(expand(w, layer, points, dist, ef), layer, points, dist, ef);
    }
}

/// A walk over a layer returns at most `ef` hits, closest first, each the
/// distance key of a stored point.
pub proof fn lemma_search_layer_bound(v: IndexView, dist: spec_fn(Seq<u32>) -> u32, ef: nat, l: int)
    requires
        v.wf(),
    ensures
        orderly(v.search_layer(dist, ef, l), v.points, dist, ef),
{
    if 0 <= l < v.layers.len() {
        assert(v.layers[l].dom().finite());
    }
    lemma_walk_orderly(seed(v.entry_point), v.layer(l), v.points, dist, ef);
}

/// A search returns at most `k` hits, closest first, each with the distance
/// key that the metric gives for the vector stored under its identifier.
pub proof fn lemma_search_bound(v: IndexView, dist: spec_fn(Seq<u32>) -> u32, k: nat)
    requires
        v.wf(),
    ensures
        v.search(dist, k).len() <= k,
        ascending(v.search(dist, k)),
        genuine(v.search(dist, k), v.points, dist),
{
    let ef = if v.params.ef_search >= k {
        v.params.ef_search as nat
    } else {
        k
    };
    lemma_search_layer_bound(v, dist, ef, 0);
    let found = v.search_layer(dist, ef, 0);
    if found.len() > k {
        let cut = found.take(k as int);
        assert forall|i: int| 0 <= i < cut.len() implies cut[i] == found[i] by {}
    }
}

/// No identifier occurs twice among the hits.
pub open spec fn distinct_hits(found: Seq<Hit>) -> bool {
    forall|i: int, j: int| 0 <= i < j < found.len() ==> found[i].id != found[j].id
}

/// Every hit of a walk was met, and no point was hit twice.
pub open spec fn tidy(w: Walk) -> bool {
    &&& (forall|i: int| 0 <= i < w.found.len() ==> w.visited.contains((#[trigger] w.found[i]).id))
    &&& distinct_hits(w.found)
}

/// Placing a hit whose identifier is new to the list leaves no identifier
/// twice in it.
pub proof fn lemma_place_distinct(found: Seq<Hit>, hit: Hit, ef: nat)
    requires
        distinct_hits(found),
        forall|i: int| 0 <= i < found.len() ==> (#[trigger] found[i]).id != hit.id,
    ensures
        distinct_hits(place(found, hit, ef)),
{
    lemma_rank_splits(found, hit.distance);
    let p = rank(found, hit.distance) as int;
    let grown = found.insert(p, hit);
    assert forall|i: int, j: int| 0 <= i < j < grown.len() implies grown[i].id != grown[j].id by {
        let a = if i < p {
            i
        } else {
            i - 1
        };
        let b = if j < p {
            j
        } else {
            j - 1
        };
        if i != p {
            assert(grown[i] == found[a]);
        }
        if j != p {
            assert(grown[j] == found[b]);
        }
    }
}

/// Meeting a neighbour keeps a walk tidy, forgets nothing that was met, and
/// hits no point that was met before.
pub proof fn lemma_visit_tidy(
    w: Walk,
    id: Seq<char>,
    points: Map<Seq<char>, PointView>,
    dist: spec_fn(Seq<u32>) -> u32,
    ef: nat,
    avoided: Seq<char>,
)
    requires
        tidy(w),
        w.visited.contains(avoided),
        forall|i: int| 0 <= i < w.found.len() ==> (#[trigger] w.found[i]).id != avoided,
    ensures
        tidy(visit(w, id, points, dist, ef)),
        visit(w, id, points, dist, ef).visited.contains(avoided),
        forall|i: int|
            0 <= i < visit(w, id, points, dist, ef).found.len() ==> (#[trigger] visit(
                w,
                id,
                points,
                dist,
                ef,
            ).found[i]).id != avoided,
{
    let after = visit(w, id, points, dist, ef);
    if after.found != w.found {
        let hit = Hit { id, distance: dist(points[id].vector) };
        assert(after == record(w, id, hit.distance, ef));
        assert forall|i: int| 0 <= i < w.found.len() implies (#[trigger] w.found[i]).id
            != hit.id by {
            assert(w.visited.contains(w.found[i].id));
        }
        lemma_place_distinct(w.found, hit, ef);
        assert forall|i: int| 0 <= i < after.found.len() implies after.visited.contains(
            (#[trigger] after.found[i]).id,
        ) && after.found[i].id != avoided by {
            lemma_place_members(w.found, hit, ef, i);
            if after.found[i] != hit {
                let j = choose|j: int| 0 <= j < w.found.len() && w.found[j] == after.found[i];
                assert(w.visited.contains(w.found[j].id));
            }
        }
    }
}

/// Meeting a list of neighbours keeps a walk tidy and hits no point that
/// was met before.
pub proof fn lemma_scan_tidy(
    w: Walk,
    neighbors: Seq<Seq<char>>,
    points: Map<Seq<char>, PointView>,
    dist: spec_fn(Seq<u32>) -> u32,
    ef: nat,
    avoided: Seq<char>,
)
    requires
        tidy(w),
        w.visited.contains(avoided),
        forall|i: int| 0 <= i < w.found.len() ==> (#[trigger] w.found[i]).id != avoided,
    ensures
        tidy(scan(w, neighbors, points, dist, ef)),
        scan(w, neighbors, points, dist, ef).visited.contains(avoided),
        forall|i: int|
            0 <= i < scan(w, neighbors, points, dist, ef).found.len() ==> (#[trigger] scan(
                w,
                neighbors,
                points,
                dist,
                ef,
            ).found[i]).id != avoided,
    decreases neighbors.len(),
{
    if neighbors.len() > 0 {
        lemma_scan_tidy(w, neighbors.drop_last(), points, dist, ef, avoided);
        lemma_visit_tidy(
            scan(w, neighbors.drop_last(), points, dist, ef),
            neighbors.last(),
            points,
            dist,
            ef,
            avoided,
        );
    }
}

/// A tidy walk ends with no point hit twice and without a hit on a point
/// that was met before the walk began.
pub proof fn lemma_walk_tidy(
    w: Walk,
    layer: Map<Seq<char>, Seq<Seq<char>>>,
    points: Map<Seq<char>, PointView>,
    dist: spec_fn(Seq<u32>) -> u32,
    ef: nat,
    avoided: Seq<char>,
)
    requires
        layer.dom().finite(),
        tidy(w),
        w.visited.contains(avoided),
        forall|i: int| 0 <= i < w.found.len() ==> (#[trigger] w.found[i]).id != avoided,
    ensures
        distinct_hits(walk(w, layer, points, dist, ef)),
        forall|i: int|
            0 <= i < walk(w, layer, points, dist, ef).len() ==> (#[trigger] walk(
                w,
                layer,
                points,
                dist,
                ef,
            )[i]).id != avoided,
    decreases remaining(w, layer),
{
    if w.stack.len() > 0 {
        let rest = Walk { stack: w.stack.drop_last(), ..w };
        if layer.contains_key(w.stack.last()) {
            lemma_scan_tidy(rest, layer[w.stack.last()], points, dist, ef, avoided);
        }
        lemma_expand_shrinks(w, layer, points, dist, ef);
        lemma_walk_tidy(expand(w, layer, points, dist, ef), layer, points, dist, ef, avoided);
    }
}

/// A search returns no point twice and never the entry point, from which
/// the walk sets out.
pub proof fn lemma_search_hits_distinct(v: IndexView, dist: spec_fn(Seq<u32>) -> u32, k: nat)
    requires
        v.wf(),
    ensures
        distinct_hits(v.search(dist, k)),
        forall|i: int|
            0 <= i < v.search(dist, k).len() ==> Some((#[trigger] v.search(dist, k)[i]).id)
                != v.entry_point,
{
    let ef = if v.params.ef_search >= k {
        v.params.ef_search as nat
    } else {
        k
    };
    let found = v.search_layer(dist, ef, 0);
    if 0 < v.layers.len() {
        assert(v.layers[0].dom().finite());
    }
    match v.entry_point {
        Some(e) => {
            lemma_walk_tidy(seed(v.entry_point), v.layer(0), v.points, dist, ef, e);
        },
        None => {
            assert(found == seed(v.entry_point).found);
        },
    }
    if found.len() > k {
        let cut = found.take(k as int);
        assert forall|i: int| 0 <= i < cut.len() implies cut[i] == found[i] by {}
    }
}

} // verus!
