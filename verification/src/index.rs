use crate::error::HnswError;
use crate::graph::{
    drop_links, find_point, lemma_assoc_push, lemma_assoc_remove, lemma_assoc_update, link_ids,
    point_ids, point_rows, point_table, reset_links, scrub, scrub_layer, Layer, Point, PointView,
};
use crate::level::{level_of, sample_level, MAX_LEVEL};
use crate::params::HNSWParams;
use vstd::prelude::*;

verus! {

/// The index as a mathematical value: its points by identifier, its layers
/// as maps from identifier to neighbour list, its entry point and its
/// dimensionality, where 0 stands for "not fixed yet".
pub struct IndexView {
    pub params: HNSWParams,
    pub points: Map<Seq<char>, PointView>,
    pub layers: Seq<Map<Seq<char>, Seq<Seq<char>>>>,
    pub entry_point: Option<Seq<char>>,
    pub dimensions: nat,
}

/// The level of the point that an optional identifier names, 0 where it
/// names none.
pub open spec fn level_of_entry(
    points: Map<Seq<char>, PointView>,
    entry: Option<Seq<char>>,
) -> nat {
    match entry {
        Some(e) => if points.contains_key(e) {
            points[e].level
        } else {
            0
        },
        None => 0,
    }
}

impl IndexView {
    /// The adjacency of a layer; a layer that does not exist links nothing.
    pub open spec fn layer(self, l: int) -> Map<Seq<char>, Seq<Seq<char>>> {
        if 0 <= l < self.layers.len() {
            self.layers[l]
        } else {
            Map::empty()
        }
    }

    /// The level of the entry point, 0 where there is none.
    pub open spec fn entry_level(self) -> nat {
        level_of_entry(self.points, self.entry_point)
    }

    /// What holds of every index: it has finitely many points and adjacency
    /// entries, the entry point names a stored point, every stored vector is
    /// empty or has the index's dimensionality, and a point of level `L` owns
    /// an adjacency entry in each of the layers `0..=L` and in no other.
    pub open spec fn wf(self) -> bool {
        &&& self.points.dom().finite()
        &&& (forall|l: int| 0 <= l < self.layers.len() ==> #[trigger] self.layers[l].dom().finite())
        &&& (self.entry_point is Some ==> self.points.contains_key(self.entry_point->0))
        &&& (forall|id: Seq<char>| #[trigger]
            self.points.contains_key(id) ==> self.points[id].vector.len() == self.dimensions
                || self.points[id].vector.len() == 0)
        &&& (forall|id: Seq<char>, l: int|
            self.points.contains_key(id) && 0 <= l <= self.points[id].level
                ==> #[trigger] self.owns(id, l))
        &&& (forall|id: Seq<char>, l: int|
            self.points.contains_key(id) && #[trigger] self.owns(id, l) ==> l
                <= self.points[id].level)
    }

    /// A layer exists and holds an adjacency entry for an identifier.
    pub open spec fn owns(self, id: Seq<char>, l: int) -> bool {
        0 <= l < self.layers.len() && self.layers[l].contains_key(id)
    }

    /// The empty index with the given parameters.
    pub open spec fn empty(params: HNSWParams) -> IndexView {
        IndexView {
            params,
            points: Map::empty(),
            layers: Seq::empty(),
            entry_point: None,
            dimensions: 0,
        }
    }

    /// Whether a vector of the given length may be stored.
    pub open spec fn accepts(self, len: nat) -> bool {
        self.dimensions == 0 || len == self.dimensions
    }

    /// A layer after a point of the given level was stored: up to the level
    /// the identifier owns an empty adjacency entry, whatever it owned there
    /// before, and above the level it owns none.
    pub open spec fn layer_with(self, id: Seq<char>, level: nat, l: int) -> Map<
        Seq<char>,
        Seq<Seq<char>>,
    > {
        if l <= level {
            self.layer(l).insert(id, Seq::empty())
        } else {
            self.layer(l).remove(id)
        }
    }

    /// The error that a vector of the given length meets.
    pub open spec fn mismatch(self, len: nat) -> HnswError {
        HnswError::DimensionMismatch { expected: self.dimensions as usize, got: len as usize }
    }

    /// The index after a point was stored at a given level. A point of the
    /// same identifier is replaced and loses the adjacency entries it owned.
    /// The layers grow to cover the level, the identifier gets an empty
    /// adjacency entry in each layer up to the level and owns none above it,
    /// and the point becomes the entry point if there was none or its level
    /// is above that of the entry point. The neighbour lists of the other
    /// points stay as they are.
    pub open spec fn with_point(self, id: Seq<char>, vector: Seq<u32>, level: nat) -> IndexView {
        let points = self.points.insert(id, PointView { vector, level });
        let stored = IndexView { points, ..self };
        IndexView {
            params: self.params,
            points,
            layers: Seq::new(
                if self.layers.len() > level {
                    self.layers.len()
                } else {
                    level + 1
                },
                |l: int| self.layer_with(id, level, l),
            ),
            entry_point: if self.entry_point is None || level > stored.entry_level() {
                Some(id)
            } else {
                self.entry_point
            },
            dimensions: if self.dimensions == 0 {
                vector.len()
            } else {
                self.dimensions
            },
        }
    }

    /// Whether `after` is this index with a point deleted: the point is gone
    /// from the table, every layer is scrubbed of it, and if it was the entry
    /// point, some remaining point has taken its place, or none if no point
    /// remains.
    pub open spec fn deleted(self, id: Seq<char>, after: IndexView) -> bool {
        &&& after.params == self.params
        &&& after.dimensions == self.dimensions
        &&& after.points == self.points.remove(id)
        &&& after.layers == Seq::new(self.layers.len(), |l: int| scrub(self.layers[l], id))
        &&& if self.entry_point == Some(id) {
            match after.entry_point {
                Some(e) => after.points.contains_key(e),
                None => after.points.len() == 0,
            }
        } else {
            after.entry_point == self.entry_point
        }
    }

    /// The number of stored points, the dimensionality, and the bytes that
    /// the stored components take at four bytes each.
    pub open spec fn stats(self) -> (nat, nat, nat) {
        (self.points.len(), self.dimensions, self.points.len() * self.dimensions * 4)
    }
}

/// Storing an acceptable point keeps an index well formed.
pub proof fn lemma_with_point_wf(v: IndexView, id: Seq<char>, vector: Seq<u32>, level: nat)
    requires
        v.wf(),
        v.accepts(vector.len()),
    ensures
        v.with_point(id, vector, level).wf(),
{
    let w = v.with_point(id, vector, level);
    assert(w.entry_point is Some ==> w.points.contains_key(w.entry_point->0));
    assert forall|x: Seq<char>| #[trigger] w.points.contains_key(x) implies w.points[x].vector.len()
        == w.dimensions || w.points[x].vector.len() == 0 by {
        if x != id {
            assert(v.points.contains_key(x));
        }
    }
    assert forall|x: Seq<char>, l: int|
        w.points.contains_key(x) && 0 <= l <= w.points[x].level implies #[trigger] w.owns(
        x,
        l,
    ) by {
        if x != id {
            assert(v.owns(x, l));
        }
    }
    assert forall|x: Seq<char>, l: int|
        w.points.contains_key(x) && #[trigger] w.owns(x, l) implies l <= w.points[x].level by {
        if x != id {
            assert(v.owns(x, l));
        }
    }
}

/// Deleting a point keeps an index well formed.
pub proof fn lemma_deleted_wf(v: IndexView, id: Seq<char>, after: IndexView)
    requires
        v.wf(),
        v.deleted(id, after),
    ensures
        after.wf(),
{
    assert forall|l: int| 0 <= l < after.layers.len() implies (
    #[trigger] after.layers[l]).dom().finite() by {
        assert(v.layers[l].dom().finite());
        assert(after.layers[l].dom() =~= v.layers[l].dom().remove(id));
    }
    assert forall|x: Seq<char>, l: int|
        after.points.contains_key(x) && 0 <= l <= after.points[x].level implies
        #[trigger] after.owns(x, l) by {
        assert(v.points.contains_key(x));
        assert(v.owns(x, l));
    }
    assert forall|x: Seq<char>| #[trigger] after.points.contains_key(x) implies
        after.points[x].vector.len() == after.dimensions || after.points[x].vector.len() == 0 by {
        assert(v.points.contains_key(x));
    }
    assert forall|x: Seq<char>, l: int|
        after.points.contains_key(x) && #[trigger] after.owns(x, l) implies l
        <= after.points[x].level by {
        assert(v.points.contains_key(x));
        assert(v.owns(x, l));
    }
}

/// The whole state of an index as plain data.
#[derive(Debug)]
pub struct Snapshot {
    pub params: HNSWParams,
    pub points: Vec<Point>,
    pub layers: Vec<Layer>,
    pub entry_point: Option<String>,
    pub dimensions: usize,
}

/// The layers of a snapshot read as maps.
pub open spec fn layer_maps(layers: Seq<Layer>) -> Seq<Map<Seq<char>, Seq<Seq<char>>>> {
    Seq::new(layers.len(), |l: int| layers[l]@)
}

/// An optional identifier as a sequence of characters.
pub open spec fn id_view(id: Option<String>) -> Option<Seq<char>> {
    match id {
        Some(e) => Some(e@),
        None => None,
    }
}

impl View for Snapshot {
    type V = IndexView;

    open spec fn view(&self) -> IndexView {
        IndexView {
            params: self.params,
            points: point_table(self.points@),
            layers: layer_maps(self.layers@),
            entry_point: id_view(self.entry_point),
            dimensions: self.dimensions as nat,
        }
    }
}

impl Snapshot {
    /// No identifier occurs twice in the point table or in a layer.
    pub open spec fn distinct(&self) -> bool {
        &&& point_ids(self.points@).no_duplicates()
        &&& forall|l: int|
            0 <= l < self.layers.len() ==> #[trigger] link_ids(
                self.layers[l].links@,
            ).no_duplicates()
    }

    /// The snapshot describes an index.
    pub open spec fn wf(&self) -> bool {
        self.distinct() && self@.wf()
    }
}

/// What `get_stats` reports.
#[derive(Clone, Copy, Debug, PartialEq, Eq, Structural)]
pub struct IndexStats {
    pub total_vectors: usize,
    pub dimensions: usize,
    pub index_size: u128,
}

/// An approximate nearest-neighbour index over a layered proximity graph.
pub struct HNSWIndex {
    pub(crate) state: Snapshot,
}

impl View for HNSWIndex {
    type V = IndexView;

    open(crate) spec fn view(&self) -> IndexView {
        self.state@
    }
}

/// The level of the entry point of a point table, 0 where there is none.
pub(crate) fn entry_level_of(points: &Vec<Point>, entry: &Option<String>) -> (level: usize)
    requires
        point_ids(points@).no_duplicates(),
    ensures
        level == level_of_entry(point_table(points@), id_view(*entry)),
{
    match entry {
        Some(e) => match find_point(points, e) {
            Some(i) => {
                proof {
                    crate::graph::lemma_point_table_row(points@, i as int);
                }
                points[i].level
            },
            None => 0,
        },
        None => 0,
    }
}

impl HNSWIndex {
    /// The index keeps its invariant.
    pub open(crate) spec fn wf(&self) -> bool {
        self.state.wf()
    }

    /// Builds an empty index.
    pub fn new(params: HNSWParams) -> (index: HNSWIndex)
        ensures
            index.wf(),
            index@ == IndexView::empty(params),
    {
        let index = HNSWIndex {
            state: Snapshot {
                params,
                points: Vec::new(),
                layers: Vec::new(),
                entry_point: None,
                dimensions: 0,
            },
        };
        assert(index@.points =~= Map::empty());
        assert(index@.layers =~= Seq::empty());
        index
    }

    /// Forgets every point and layer; the parameters stay.
    pub fn clear(&mut self)
        ensures
            final(self).wf(),
            final(self)@ == IndexView::empty(old(self)@.params),
    {
        self.state.points.clear();
        self.state.layers.clear();
        self.state.entry_point = None;
        self.state.dimensions = 0;
        assert(self@.points =~= Map::empty());
        assert(self@.layers =~= Seq::empty());
    }

    /// Stores a point at a given level. A point that was stored under the
    /// same identifier is replaced, and the adjacency entries it owned are
    /// dropped. A vector whose length disagrees with the dimensionality of
    /// the index is refused, and the index stays as it was.
    pub fn add_with_level(&mut self, id: String, vector: Vec<u32>, level: usize) -> (result: Result<
        (),
        HnswError,
    >)
        requires
            old(self).wf(),
        ensures
            final(self).wf(),
            match result {
                Ok(_) => old(self)@.accepts(vector@.len()) && final(self)@ == old(self)@.with_point(
                    id@,
                    vector@,
                    level as nat,
                ),
                Err(e) => !old(self)@.accepts(vector@.len()) && e == old(self)@.mismatch(
                    vector@.len(),
                ) && *final(self) == *old(self),
            },
    {
        if self.state.dimensions != 0 && vector.len() != self.state.dimensions {
            return Err(
                HnswError::DimensionMismatch { expected: self.state.dimensions, got: vector.len() },
            );
        }
        let ghost before = self@;
        let ghost old_layers = self.state.layers@;
        let ghost components = vector@;
        if self.state.dimensions == 0 {
            self.state.dimensions = vector.len();
        }
        let point = Point { id: id.clone(), vector, level };
        match find_point(&self.state.points, &id) {
            Some(i) => {
                let ghost ids = point_ids(self.state.points@);
                let ghost rows = point_rows(self.state.points@);
                proof {
                    assert(ids[i as int] == id@);
                    lemma_assoc_update(ids, rows, i as int, point@);
                }
                self.state.points.set(i, point);
                assert(point_ids(self.state.points@) =~= ids);
                assert(point_rows(self.state.points@) =~= rows.update(i as int, point@));
            },
            None => {
                let ghost ids = point_ids(self.state.points@);
                let ghost rows = point_rows(self.state.points@);
                proof {
                    lemma_assoc_push(ids, rows, id@, point@);
                }
                self.state.points.push(point);
                assert(point_ids(self.state.points@) =~= ids.push(id@));
                assert(point_rows(self.state.points@) =~= rows.push(point@));
            },
        }
        let ghost stored = self.state.points;
        assert(point_table(stored@) == before.points.insert(
            id@,
            PointView { vector: components, level: level as nat },
        ));
        while self.state.layers.len() <= level
            invariant
                self.state.points == stored,
                self.state.params == old(self).state.params,
                self.state.entry_point == old(self).state.entry_point,
                self.state.dimensions as nat == before.with_point(
                    id@,
                    components,
                    level as nat,
                ).dimensions,
                old_layers.len() <= self.state.layers.len(),
                self.state.layers.len() <= old_layers.len() || self.state.layers.len() <= level + 1,
                forall|j: int| 0 <= j < old_layers.len() ==> self.state.layers[j] == old_layers[j],
                forall|j: int|
                    old_layers.len() <= j < self.state.layers.len() ==> (
                    #[trigger] self.state.layers[j]).links@.len() == 0,
            decreases level + 1 - self.state.layers.len(),
        {
            self.state.layers.push(Layer { links: Vec::new() });
        }
        let ghost grown = self.state.layers@;
        assert forall|j: int| 0 <= j < grown.len() implies #[trigger] grown[j]@ == before.layer(
            j,
        ) by {
            if j >= old_layers.len() {
                assert(grown[j]@ =~= Map::empty());
            } else {
                assert(before.layers[j] == old_layers[j]@);
            }
        }
        assert forall|j: int| 0 <= j < grown.len() implies #[trigger] link_ids(
            grown[j].links@,
        ).no_duplicates() by {
            if j < old_layers.len() {
                assert(grown[j] == old_layers[j]);
            }
        }
        let mut l: usize = 0;
        while l < self.state.layers.len()
            invariant
                self.state.points == stored,
                self.state.params == old(self).state.params,
                self.state.entry_point == old(self).state.entry_point,
                self.state.dimensions as nat == before.with_point(
                    id@,
                    components,
                    level as nat,
                ).dimensions,
                self.state.layers.len() == grown.len(),
                level < grown.len(),
                l <= grown.len(),
                forall|j: int| 0 <= j < grown.len() ==> #[trigger] grown[j]@ == before.layer(j),
                forall|j: int|
                    0 <= j < grown.len() ==> #[trigger] link_ids(
                        self.state.layers[j].links@,
                    ).no_duplicates(),
                forall|j: int|
                    0 <= j < l ==> (#[trigger] self.state.layers[j])@ == before.layer_with(
                        id@,
                        level as nat,
                        j,
                    ),
                forall|j: int| l <= j < grown.len() ==> self.state.layers[j] == grown[j],
            decreases grown.len() - l,
        {
            let ghost prev = self.state.layers@;
            assert(prev[l as int] == grown[l as int]);
            assert(prev[l as int]@ == before.layer(l as int));
            if l <= level {
                reset_links(&mut self.state.layers[l], &id);
            } else {
                drop_links(&mut self.state.layers[l], &id);
            }
            assert(self.state.layers[l as int]@ == before.layer_with(id@, level as nat, l as int));
            assert(forall|j: int|
                0 <= j < grown.len() && j != l ==> self.state.layers[j] == prev[j]);
            l += 1;
        }
        let entry_level = entry_level_of(&self.state.points, &self.state.entry_point);
        if self.state.entry_point.is_none() || level > entry_level {
            self.state.entry_point = Some(id);
        }
        proof {
            let after = before.with_point(id@, components, level as nat);
            lemma_with_point_wf(before, id@, components, level as nat);
            assert(self@.layers =~= after.layers);
            assert(self@ == after);
        }
        Ok(())
    }

    /// Draws a level for a new point: the level that `MAX_LEVEL` random
    /// draws give under the branching factor of the index.
    pub fn random_level(&self) -> (level: usize)
        ensures
            level <= MAX_LEVEL,
            exists|draws: Seq<u32>|
                draws.len() == MAX_LEVEL && level == #[trigger] level_of(
                    self@.params.m as nat,
                    draws,
                ),
    {
        let level = sample_level(self.state.params.m);
        proof {
            let draws = choose|draws: Seq<u32>|
                draws.len() == MAX_LEVEL && level == #[trigger] level_of(
                    self.state.params.m as nat,
                    draws,
                );
            assert(level == level_of(self@.params.m as nat, draws));
        }
        level
    }

    /// Stores a point at a randomly drawn level: the index afterwards is what
    /// storing the point at the level of some `MAX_LEVEL` draws gives. A
    /// vector whose length disagrees with the dimensionality of the index is
    /// refused, and the index stays as it was.
    pub fn add(&mut self, id: String, vector: Vec<u32>) -> (result: Result<(), HnswError>)
        requires
            old(self).wf(),
        ensures
            final(self).wf(),
            match result {
                Ok(_) => old(self)@.accepts(vector@.len()) && exists|draws: Seq<u32>|
                    draws.len() == MAX_LEVEL && final(self)@ == old(self)@.with_point(
                        id@,
                        vector@,
                        #[trigger] level_of(old(self)@.params.m as nat, draws),
                    ),
                Err(e) => !old(self)@.accepts(vector@.len()) && e == old(self)@.mismatch(
                    vector@.len(),
                ) && *final(self) == *old(self),
            },
    {
        if self.state.dimensions != 0 && vector.len() != self.state.dimensions {
            return Err(
                HnswError::DimensionMismatch { expected: self.state.dimensions, got: vector.len() },
            );
        }
        let level = self.random_level();
        let ghost before = self@;
        let ghost name = id@;
        let ghost components = vector@;
        let result = self.add_with_level(id, vector, level);
        proof {
            let draws = choose|draws: Seq<u32>|
                draws.len() == MAX_LEVEL && level == #[trigger] level_of(
                    before.params.m as nat,
                    draws,
                );
            assert(self@ == before.with_point(
                name,
                components,
                level_of(before.params.m as nat, draws),
            ));
        }
        result
    }

    /// Deletes a point: takes it out of the table and scrubs it from every
    /// layer. If it was the entry point, a remaining point takes its place.
    /// Deleting an identifier that names no point changes nothing but the
    /// neighbour lists that mention it.
    pub fn delete(&mut self, id: &str) -> (result: Result<(), HnswError>)
        requires
            old(self).wf(),
        ensures
            result is Ok,
            final(self).wf(),
            old(self)@.deleted(id@, final(self)@),
    {
        let key = id.to_owned();
        let ghost before = self@;
        let ghost ids = point_ids(self.state.points@);
        let ghost rows = point_rows(self.state.points@);
        match find_point(&self.state.points, &key) {
            Some(i) => {
                proof {
                    assert(ids[i as int] == key@);
                    lemma_assoc_remove(ids, rows, i as int);
                }
                self.state.points.remove(i);
                assert(point_ids(self.state.points@) =~= ids.remove(i as int));
                assert(point_rows(self.state.points@) =~= rows.remove(i as int));
            },
            None => {
                assert(before.points.remove(key@) =~= before.points);
            },
        }
        let ghost kept = self.state.points;
        let ghost old_layers = self.state.layers@;
        let mut l: usize = 0;
        while l < self.state.layers.len()
            invariant
                self.state.points == kept,
                self.state.params == old(self).state.params,
                self.state.entry_point == old(self).state.entry_point,
                self.state.dimensions == old(self).state.dimensions,
                self.state.layers.len() == old_layers.len(),
                l <= old_layers.len(),
                forall|j: int|
                    0 <= j < old_layers.len() ==> #[trigger] link_ids(
                        self.state.layers[j].links@,
                    ).no_duplicates(),
                forall|j: int|
                    0 <= j < l ==> (#[trigger] self.state.layers[j])@ == scrub(
                        old_layers[j]@,
                        key@,
                    ),
                forall|j: int| l <= j < old_layers.len() ==> self.state.layers[j] == old_layers[j],
            decreases old_layers.len() - l,
        {
            let ghost prev = self.state.layers@;
            scrub_layer(&mut self.state.layers[l], &key);
            assert(forall|j: int|
                0 <= j < old_layers.len() && j != l ==> self.state.layers[j] == prev[j]);
            l += 1;
        }
        let was_entry = match &self.state.entry_point {
            Some(e) => *e == key,
            None => false,
        };
        if was_entry {
            if self.state.points.len() > 0 {
                let heir = self.state.points[0].id.clone();
                proof {
                    crate::graph::lemma_point_table_row(self.state.points@, 0);
                }
                self.state.entry_point = Some(heir);
            } else {
                proof {
                    crate::graph::lemma_assoc_len(
                        point_ids(self.state.points@),
                        point_rows(self.state.points@),
                    );
                }
                self.state.entry_point = None;
            }
        }
        proof {
            assert(self@.layers =~= Seq::new(
                before.layers.len(),
                |l: int| scrub(before.layers[l], key@),
            ));
            assert(before.deleted(key@, self@));
            lemma_deleted_wf(before, key@, self@);
        }
        Ok(())
    }

    /// The level of the entry point, 0 where there is none.
    pub fn get_entry_level(&self) -> (level: usize)
        requires
            self.wf(),
        ensures
            level == self@.entry_level(),
    {
        entry_level_of(&self.state.points, &self.state.entry_point)
    }

    /// Reports the number of stored points, the dimensionality and an
    /// estimate of the memory the components take. The estimate stops at the
    /// largest value of its type.
    pub fn get_stats(&self) -> (stats: IndexStats)
        requires
            self.wf(),
        ensures
            stats.total_vectors == self@.stats().0,
            stats.dimensions == self@.stats().1,
            stats.index_size == if self@.stats().2 <= u128::MAX {
                self@.stats().2
            } else {
                u128::MAX as nat
            },
    {
        proof {
            crate::graph::lemma_assoc_len(
                point_ids(self.state.points@),
                point_rows(self.state.points@),
            );
        }
        let count: usize = self.state.points.len();
        let dims: usize = self.state.dimensions;
        let wide_count: u128 = count as u128;
        let wide_dims: u128 = dims as u128;
        assert(wide_count * wide_dims <= 0xffff_ffff_ffff_ffff * 0xffff_ffff_ffff_ffff)
            by (nonlinear_arith)
            requires
                0 <= wide_count <= 0xffff_ffff_ffff_ffff,
                0 <= wide_dims <= 0xffff_ffff_ffff_ffff,
        ;
        let components: u128 = wide_count * wide_dims;
        let index_size: u128 = if components > u128::MAX / 4 {
            u128::MAX
        } else {
            components * 4
        };
        IndexStats { total_vectors: count, dimensions: dims, index_size }
    }
}

} // verus!

