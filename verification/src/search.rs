use crate::error::HnswError;
use crate::graph::{
    find_links, find_point, holds_id, lemma_assoc_len, lemma_assoc_row, link_ids, link_rows,
    point_ids, point_rows, PointView,
};
use crate::index::{HNSWIndex, IndexView};
use crate::ranking::{admits, hits, offer, place, Hit, Neighbor};
use vstd::prelude::*;

verus! {

/// The state of a walk over one layer: the identifiers still to expand, the
/// last one on top; the identifiers met so far; and the hits kept, closest
/// first.
pub struct Walk {
    pub stack: Seq<Seq<char>>,
    pub visited: Set<Seq<char>>,
    pub found: Seq<Hit>,
}

/// The walk after a neighbour was met whose distance is known. A neighbour
/// met before changes nothing. A new one is marked; if the result list
/// admits it, it goes on the stack and into the list.
pub open spec fn record(w: Walk, id: Seq<char>, distance: u32, ef: nat) -> Walk {
    if admits(w.found, distance, ef) {
        Walk {
            stack: w.stack.push(id),
            visited: w.visited.insert(id),
            found: place(w.found, Hit { id, distance }, ef),
        }
    } else {
        Walk { visited: w.visited.insert(id), ..w }
    }
}

/// The walk after a neighbour was met. One that was met before changes
/// nothing; one that names no stored point is only marked.
pub open spec fn visit(
    w: Walk,
    id: Seq<char>,
    points: Map<Seq<char>, PointView>,
    dist: spec_fn(Seq<u32>) -> u32,
    ef: nat,
) -> Walk {
    if w.visited.contains(id) {
        w
    } else if !points.contains_key(id) {
        Walk { visited: w.visited.insert(id), ..w }
    } else {
        record(w, id, dist(points[id].vector), ef)
    }
}

/// The walk after a neighbour list was met from its first entry to its last.
pub open spec fn scan(
    w: Walk,
    neighbors: Seq<Seq<char>>,
    points: Map<Seq<char>, PointView>,
    dist: spec_fn(Seq<u32>) -> u32,
    ef: nat,
) -> Walk
    decreases neighbors.len(),
{
    if neighbors.len() == 0 {
        w
    } else {
        visit(scan(w, neighbors.drop_last(), points, dist, ef), neighbors.last(), points, dist, ef)
    }
}

/// The walk after the top of the stack was taken off and its neighbours in
/// the layer were met.
pub open spec fn expand(
    w: Walk,
    layer: Map<Seq<char>, Seq<Seq<char>>>,
    points: Map<Seq<char>, PointView>,
    dist: spec_fn(Seq<u32>) -> u32,
    ef: nat,
) -> Walk {
    let rest = Walk { stack: w.stack.drop_last(), ..w };
    if layer.contains_key(w.stack.last()) {
        scan(rest, layer[w.stack.last()], points, dist, ef)
    } else {
        rest
    }
}

/// The identifiers that a layer names as a neighbour of some point.
pub open spec fn reach(layer: Map<Seq<char>, Seq<Seq<char>>>) -> Set<Seq<char>> {
    Set::new(|id: Seq<char>| exists|k: Seq<char>| layer.contains_key(k) && layer[k].contains(id))
}

/// How much work a walk may still do: one step for each identifier on the
/// stack and one for each neighbour of the layer not met yet.
pub open spec fn remaining(w: Walk, layer: Map<Seq<char>, Seq<Seq<char>>>) -> nat {
    reach(layer).difference(w.visited).len() + w.stack.len()
}

/// The hits that a walk ends with: the stack is expanded from the top until
/// it is empty.
pub open spec fn walk(
    w: Walk,
    layer: Map<Seq<char>, Seq<Seq<char>>>,
    points: Map<Seq<char>, PointView>,
    dist: spec_fn(Seq<u32>) -> u32,
    ef: nat,
) -> Seq<Hit>
    decreases remaining(w, layer),
    when layer.dom().finite()
    via walk_terminates
{
    if w.stack.len() == 0 {
        w.found
    } else {
        walk(expand(w, layer, points, dist, ef), layer, points, dist, ef)
    }
}

#[via_fn]
proof fn walk_terminates(
    w: Walk,
    layer: Map<Seq<char>, Seq<Seq<char>>>,
    points: Map<Seq<char>, PointView>,
    dist: spec_fn(Seq<u32>) -> u32,
    ef: nat,
) {
    if w.stack.len() != 0 {
        lemma_expand_shrinks(w, layer, points, dist, ef);
    }
}

/// A layer with finitely many entries names finitely many neighbours.
pub proof fn lemma_reach_finite(layer: Map<Seq<char>, Seq<Seq<char>>>)
    requires
        layer.dom().finite(),
    ensures
        reach(layer).finite(),
    decreases layer.dom().len(),
{
    if layer.dom().len() == 0 {
        assert(layer.dom() =~= Set::empty());
        assert(reach(layer) =~= Set::empty());
    } else {
        let k = layer.dom().choose();
        let rest = layer.remove(k);
        lemma_reach_finite(rest);
        vstd::seq_lib::seq_to_set_is_finite(layer[k]);
        assert forall|id: Seq<char>| reach(layer).contains(id) <==> reach(rest).union(
            layer[k].to_set(),
        ).contains(id) by {
            if reach(layer).contains(id) {
                let j = choose|j: Seq<char>| layer.contains_key(j) && layer[j].contains(id);
                if j != k {
                    assert(rest.contains_key(j) && rest[j].contains(id));
                }
            }
            if reach(rest).contains(id) {
                let j = choose|j: Seq<char>| rest.contains_key(j) && rest[j].contains(id);
                assert(layer.contains_key(j) && layer[j].contains(id));
            }
            if layer[k].contains(id) {
                assert(layer.contains_key(k) && layer[k].contains(id));
            }
        }
        assert(reach(layer) =~= reach(rest).union(layer[k].to_set()));
    }
}

/// Meeting a neighbour that the layer names leaves no more work than before
/// and forgets nothing that was met.
pub proof fn lemma_visit_shrinks(
    w: Walk,
    id: Seq<char>,
    layer: Map<Seq<char>, Seq<Seq<char>>>,
    points: Map<Seq<char>, PointView>,
    dist: spec_fn(Seq<u32>) -> u32,
    ef: nat,
)
    requires
        layer.dom().finite(),
        reach(layer).contains(id),
    ensures
        remaining(visit(w, id, points, dist, ef), layer) <= remaining(w, layer),
{
    lemma_reach_finite(layer);
    let after = visit(w, id, points, dist, ef);
    if !w.visited.contains(id) {
        assert(after.visited == w.visited.insert(id));
        assert(reach(layer).difference(after.visited) =~= reach(layer).difference(
            w.visited,
        ).remove(id));
        assert(reach(layer).difference(w.visited).contains(id));
    }
}

/// Meeting a list of neighbours that the layer names leaves no more work
/// than before.
pub proof fn lemma_scan_shrinks(
    w: Walk,
    neighbors: Seq<Seq<char>>,
    layer: Map<Seq<char>, Seq<Seq<char>>>,
    points: Map<Seq<char>, PointView>,
    dist: spec_fn(Seq<u32>) -> u32,
    ef: nat,
)
    requires
        layer.dom().finite(),
        forall|i: int| 0 <= i < neighbors.len() ==> reach(layer).contains(neighbors[i]),
    ensures
        remaining(scan(w, neighbors, points, dist, ef), layer) <= remaining(w, layer),
    decreases neighbors.len(),
{
    if neighbors.len() > 0 {
        lemma_scan_shrinks(w, neighbors.drop_last(), layer, points, dist, ef);
        lemma_visit_shrinks(
            scan(w, neighbors.drop_last(), points, dist, ef),
            neighbors.last(),
            layer,
            points,
            dist,
            ef,
        );
    }
}

/// Expanding the top of the stack leaves less work than before.
pub proof fn lemma_expand_shrinks(
    w: Walk,
    layer: Map<Seq<char>, Seq<Seq<char>>>,
    points: Map<Seq<char>, PointView>,
    dist: spec_fn(Seq<u32>) -> u32,
    ef: nat,
)
    requires
        layer.dom().finite(),
        w.stack.len() > 0,
    ensures
        remaining(expand(w, layer, points, dist, ef), layer) < remaining(w, layer),
{
    let rest = Walk { stack: w.stack.drop_last(), ..w };
    let cur = w.stack.last();
    if layer.contains_key(cur) {
        assert forall|i: int| 0 <= i < layer[cur].len() implies reach(layer).contains(
            layer[cur][i],
        ) by {
            assert(layer.contains_key(cur) && layer[cur].contains(layer[cur][i]));
        }
        lemma_scan_shrinks(rest, layer[cur], layer, points, dist, ef);
    }
}

/// What a metric answers depends on the components of the two vectors
/// alone: asked twice about the same components, it answers the same.
pub open spec fn measures<F: Fn(&Vec<u32>, &Vec<u32>) -> u32>(metric: &F) -> bool {
    forall|a: &Vec<u32>, b: &Vec<u32>, c: &Vec<u32>, d: &Vec<u32>, r: u32, s: u32|
        a@ == c@ && b@ == d@ && #[trigger] call_ensures(metric, (a, b), r)
            && #[trigger] call_ensures(metric, (c, d), s) ==> r == s
}

/// Some point is stored with the given components.
pub open spec fn stores(points: Map<Seq<char>, PointView>, vector: Seq<u32>) -> bool {
    exists|id: Seq<char>| #[trigger] points.contains_key(id) && points[id].vector == vector
}

/// A metric can be asked about a query and every vector that is stored.
pub open spec fn askable<F: Fn(&Vec<u32>, &Vec<u32>) -> u32>(
    metric: &F,
    query: &Vec<u32>,
    points: Map<Seq<char>, PointView>,
) -> bool {
    forall|stored: &Vec<u32>|
        stores(points, stored@) ==> #[trigger] call_requires(metric, (query, stored))
}

/// A metric may answer `r` when asked about two vectors with the given
/// components.
pub open spec fn answers<F: Fn(&Vec<u32>, &Vec<u32>) -> u32>(
    metric: &F,
    query: Seq<u32>,
    stored: Seq<u32>,
    r: u32,
) -> bool {
    exists|a: &Vec<u32>, b: &Vec<u32>|
        a@ == query && b@ == stored && #[trigger] call_ensures(metric, (a, b), r)
}

/// The distance key that a metric gives between a query and a stored vector.
pub open spec fn distance_by<F: Fn(&Vec<u32>, &Vec<u32>) -> u32>(
    metric: &F,
    query: Seq<u32>,
) -> spec_fn(Seq<u32>) -> u32 {
    |stored: Seq<u32>| choose|r: u32| answers(metric, query, stored, r)
}

/// What a metric answered for two vectors is the distance key between them.
pub proof fn lemma_distance_by<F: Fn(&Vec<u32>, &Vec<u32>) -> u32>(
    metric: &F,
    a: &Vec<u32>,
    b: &Vec<u32>,
    r: u32,
)
    requires
        measures(metric),
        call_ensures(metric, (a, b), r),
    ensures
        distance_by(metric, a@)(b@) == r,
{
    let s = distance_by(metric, a@)(b@);
    assert(answers(metric, a@, b@, r));
    assert(answers(metric, a@, b@, s));
    let (c, d) = choose|c: &Vec<u32>, d: &Vec<u32>|
        c@ == a@ && d@ == b@ && #[trigger] call_ensures(metric, (c, d), s);
    assert(call_ensures(metric, (c, d), s));
}

/// The walk before its first step: the entry point, if there is one, lies on
/// the stack and is marked as met.
pub open spec fn seed(entry_point: Option<Seq<char>>) -> Walk {
    match entry_point {
        Some(e) => Walk {
            stack: Seq::empty().push(e),
            visited: Set::empty().insert(e),
            found: Seq::empty(),
        },
        None => Walk { stack: Seq::empty(), visited: Set::empty(), found: Seq::empty() },
    }
}

impl IndexView {
    /// The hits of a walk over one layer from the entry point, closest
    /// first and at most `ef` of them.
    pub open spec fn search_layer(self, dist: spec_fn(Seq<u32>) -> u32, ef: nat, l: int) -> Seq<
        Hit,
    > {
        walk(seed(self.entry_point), self.layer(l), self.points, dist, ef)
    }

    /// The `k` closest hits of a walk over the bottom layer that keeps
    /// `ef_search` candidates, or `k` if that is more.
    pub open spec fn search(self, dist: spec_fn(Seq<u32>) -> u32, k: nat) -> Seq<Hit> {
        let ef = if self.params.ef_search >= k {
            self.params.ef_search as nat
        } else {
            k
        };
        let found = self.search_layer(dist, ef, 0);
        if found.len() > k {
            found.take(k as int)
        } else {
            found
        }
    }
}

/// The state of a walk as the search keeps it.
struct Frontier {
    stack: Vec<String>,
    visited: Vec<String>,
    found: Vec<Neighbor>,
}

impl View for Frontier {
    type V = Walk;

    closed spec fn view(&self) -> Walk {
        Walk {
            stack: self.stack.deep_view(),
            visited: self.visited.deep_view().to_set(),
            found: hits(self.found@),
        }
    }
}

/// Meets one neighbour.
fn meet<F: Fn(&Vec<u32>, &Vec<u32>) -> u32>(
    index: &HNSWIndex,
    frontier: &mut Frontier,
    id: &String,
    vector: &Vec<u32>,
    ef: usize,
    metric: &F,
)
    requires
        index.wf(),
        measures(metric),
        askable(metric, vector, index@.points),
    ensures
        final(frontier)@ == visit(
            old(frontier)@,
            id@,
            index@.points,
            distance_by(metric, vector@),
            ef as nat,
        ),
{
    let ghost before = frontier@;
    if holds_id(&frontier.visited, id) {
        return ;
    }
    let ghost met = frontier.visited.deep_view();
    frontier.visited.push(id.clone());
    proof {
        assert(frontier.visited.deep_view() =~= met.push(id@));
        assert forall|x: Seq<char>|
            met.push(id@).contains(x) <==> met.to_set().insert(id@).contains(x) by {
            if met.push(id@).contains(x) {
                let i = choose|i: int| 0 <= i < met.push(id@).len() && met.push(id@)[i] == x;
                if i < met.len() {
                    assert(met[i] == x);
                }
            }
            if met.contains(x) {
                let i = choose|i: int| 0 <= i < met.len() && met[i] == x;
                assert(met.push(id@)[i] == x);
            }
            assert(met.push(id@)[met.len() as int] == id@);
        }
        assert(frontier.visited.deep_view().to_set() =~= before.visited.insert(id@));
    }
    match find_point(&index.state.points, id) {
        None => {},
        Some(i) => {
            proof {
                lemma_assoc_row(
                    point_ids(index.state.points@),
                    point_rows(index.state.points@),
                    i as int,
                );
            }
            assert(stores(index@.points, index.state.points[i as int].vector@)) by {
                assert(index@.points.contains_key(id@));
            }
            let distance = metric(vector, &index.state.points[i].vector);
            proof {
                lemma_distance_by(metric, vector, &index.state.points[i as int].vector, distance);
            }
            let kept: usize = frontier.found.len();
            assert(kept > 0 ==> hits(frontier.found@).last().distance == frontier.found[kept
                - 1].distance);
            if kept < ef || (kept > 0 && distance < frontier.found[kept - 1].distance) {
                let ghost stacked = frontier.stack.deep_view();
                frontier.stack.push(id.clone());
                assert(frontier.stack.deep_view() =~= stacked.push(id@));
                offer(&mut frontier.found, Neighbor { id: id.clone(), distance }, ef);
            }
        },
    }
}

/// Meets the entries of a neighbour list from the first to the last.
fn meet_all<F: Fn(&Vec<u32>, &Vec<u32>) -> u32>(
    index: &HNSWIndex,
    frontier: &mut Frontier,
    neighbors: &Vec<String>,
    vector: &Vec<u32>,
    ef: usize,
    metric: &F,
)
    requires
        index.wf(),
        measures(metric),
        askable(metric, vector, index@.points),
    ensures
        final(frontier)@ == scan(
            old(frontier)@,
            neighbors.deep_view(),
            index@.points,
            distance_by(metric, vector@),
            ef as nat,
        ),
{
    let ghost start = frontier@;
    let ghost all = neighbors.deep_view();
    let mut j: usize = 0;
    while j < neighbors.len()
        invariant
            index.wf(),
            measures(metric),
            askable(metric, vector, index@.points),
            j <= neighbors.len(),
            all == neighbors.deep_view(),
            frontier@ == scan(
                start,
                all.take(j as int),
                index@.points,
                distance_by(metric, vector@),
                ef as nat,
            ),
        decreases neighbors.len() - j,
    {
        meet(index, frontier, &neighbors[j], vector, ef, metric);
        proof {
            let next = all.take(j + 1);
            assert(next.drop_last() =~= all.take(j as int));
            assert(next.last() == neighbors[j as int]@);
        }
        j += 1;
    }
    assert(all.take(j as int) =~= all);
}

impl HNSWIndex {
    /// Walks one layer from the entry point and returns the hits kept,
    /// closest first and at most `ef` of them. A layer that does not exist
    /// links nothing.
    pub fn search_layer<F: Fn(&Vec<u32>, &Vec<u32>) -> u32>(
        &self,
        vector: &Vec<u32>,
        ef: usize,
        layer: usize,
        metric: &F,
    ) -> (found: Vec<Neighbor>)
        requires
            self.wf(),
            measures(metric),
            askable(metric, vector, self@.points),
        ensures
            hits(found@) == self@.search_layer(
                distance_by(metric, vector@),
                ef as nat,
                layer as int,
            ),
    {
        let mut frontier = Frontier { stack: Vec::new(), visited: Vec::new(), found: Vec::new() };
        match &self.state.entry_point {
            Some(e) => {
                frontier.stack.push(e.clone());
                frontier.visited.push(e.clone());
                assert(frontier.stack.deep_view() =~= Seq::empty().push(e@));
                assert(frontier.visited.deep_view() =~= Seq::empty().push(e@));
                assert(frontier.visited.deep_view().to_set() =~= Set::empty().insert(e@)) by {
                    assert(frontier.visited.deep_view()[0] == e@);
                }
            },
            None => {
                assert(frontier.stack.deep_view() =~= Seq::empty());
                assert(frontier.visited.deep_view().to_set() =~= Set::empty());
            },
        }
        assert(hits(frontier.found@) =~= Seq::empty());
        let ghost links = self@.layer(layer as int);
        let ghost dist = distance_by(metric, vector@);
        proof {
            if layer < self.state.layers.len() {
                lemma_assoc_len(
                    link_ids(self.state.layers[layer as int].links@),
                    link_rows(self.state.layers[layer as int].links@),
                );
            }
        }
        while frontier.stack.len() > 0
            invariant
                self.wf(),
                measures(metric),
                askable(metric, vector, self@.points),
                links == self@.layer(layer as int),
                links.dom().finite(),
                dist == distance_by(metric, vector@),
                walk(frontier@, links, self@.points, dist, ef as nat) == self@.search_layer(
                    dist,
                    ef as nat,
                    layer as int,
                ),
            decreases remaining(frontier@, links),
        {
            let ghost before = frontier@;
            proof {
                lemma_expand_shrinks(before, links, self@.points, dist, ef as nat);
            }
            let ghost stacked = frontier.stack.deep_view();
            let top = frontier.stack.pop().unwrap();
            assert(frontier.stack.deep_view() =~= stacked.drop_last());
            assert(top@ == stacked.last());
            if layer < self.state.layers.len() {
                match find_links(&self.state.layers[layer], &top) {
                    Some(i) => {
                        proof {
                            lemma_assoc_row(
                                link_ids(self.state.layers[layer as int].links@),
                                link_rows(self.state.layers[layer as int].links@),
                                i as int,
                            );
                        }
                        meet_all(
                            self,
                            &mut frontier,
                            &self.state.layers[layer].links[i].neighbors,
                            vector,
                            ef,
                            metric,
                        );
                    },
                    None => {},
                }
            }
            assert(frontier@ == expand(before, links, self@.points, dist, ef as nat));
        }
        frontier.found
    }

    /// Searches the bottom layer for the `k` points closest to a query. A
    /// query whose length disagrees with the dimensionality of the index is
    /// refused before the metric is asked anything.
    pub fn search<F: Fn(&Vec<u32>, &Vec<u32>) -> u32>(
        &self,
        vector: Vec<u32>,
        k: usize,
        metric: &F,
    ) -> (result: Result<Vec<Neighbor>, HnswError>)
        requires
            self.wf(),
            measures(metric),
            vector@.len() == self@.dimensions ==> askable(metric, &vector, self@.points),
        ensures
            match result {
                Ok(found) => vector@.len() == self@.dimensions && hits(found@) == self@.search(
                    distance_by(metric, vector@),
                    k as nat,
                ),
                Err(e) => vector@.len() != self@.dimensions && e == self@.mismatch(vector@.len()),
            },
    {
        if vector.len() != self.state.dimensions {
            return Err(
                HnswError::DimensionMismatch { expected: self.state.dimensions, got: vector.len() },
            );
        }
        let ef: usize = if self.state.params.ef_search >= k {
            self.state.params.ef_search
        } else {
            k
        };
        let mut found = self.search_layer(&vector, ef, 0, metric);
        let ghost all = hits(found@);
        if found.len() > k {
            found.truncate(k);
            assert(hits(found@) =~= all.take(k as int));
        }
        Ok(found)
    }
}

} // verus!
