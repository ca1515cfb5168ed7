use crate::error::HnswError;
use crate::graph::{
    find_links, find_point, lemma_assoc_len, lemma_assoc_row, link_ids, link_rows,
    point_ids, point_rows, Adjacency, Layer, Point,
};
use crate::index::{HNSWIndex, Snapshot};
use vstd::prelude::*;

verus! {

/// Copies the components of a vector.
pub fn copy_components(vector: &Vec<u32>) -> (copy: Vec<u32>)
    ensures
        copy@ == vector@,
{
    let mut copy: Vec<u32> = Vec::new();
    let mut i: usize = 0;
    while i < vector.len()
        invariant
            i <= vector.len(),
            copy@ == vector@.take(i as int),
        decreases vector.len() - i,
    {
        copy.push(vector[i]);
        assert(vector@.take(i + 1) =~= vector@.take(i as int).push(vector[i as int]));
        i += 1;
    }
    assert(vector@.take(i as int) =~= vector@);
    copy
}

/// Copies a list of identifiers.
pub fn copy_ids(ids: &Vec<String>) -> (copy: Vec<String>)
    ensures
        copy.deep_view() == ids.deep_view(),
{
    let mut copy: Vec<String> = Vec::new();
    let mut i: usize = 0;
    while i < ids.len()
        invariant
            i <= ids.len(),
            copy.len() == i,
            forall|j: int| 0 <= j < i ==> copy[j]@ == ids[j]@,
        decreases ids.len() - i,
    {
        copy.push(ids[i].clone());
        i += 1;
    }
    assert(copy.deep_view() =~= ids.deep_view());
    copy
}

/// Copies a point table, row by row.
fn copy_points(points: &Vec<Point>) -> (copy: Vec<Point>)
    ensures
        point_ids(copy@) == point_ids(points@),
        point_rows(copy@) == point_rows(points@),
{
    let mut copy: Vec<Point> = Vec::new();
    let mut i: usize = 0;
    while i < points.len()
        invariant
            i <= points.len(),
            copy.len() == i,
            forall|j: int| 0 <= j < i ==> copy[j].id@ == points[j].id@ && copy[j]@ == points[j]@,
        decreases points.len() - i,
    {
        let row = &points[i];
        copy.push(
            Point { id: row.id.clone(), vector: copy_components(&row.vector), level: row.level },
        );
        i += 1;
    }
    assert(point_ids(copy@) =~= point_ids(points@));
    assert(point_rows(copy@) =~= point_rows(points@));
    copy
}

/// Copies a layer, entry by entry.
fn copy_layer(layer: &Layer) -> (copy: Layer)
    ensures
        link_ids(copy.links@) == link_ids(layer.links@),
        link_rows(copy.links@) == link_rows(layer.links@),
{
    let mut links: Vec<Adjacency> = Vec::new();
    let mut i: usize = 0;
    while i < layer.links.len()
        invariant
            i <= layer.links.len(),
            links.len() == i,
            forall|j: int|
                0 <= j < i ==> links[j].id@ == layer.links[j].id@ && links[j].neighbors.deep_view()
                    == layer.links[j].neighbors.deep_view(),
        decreases layer.links.len() - i,
    {
        let entry = &layer.links[i];
        links.push(Adjacency { id: entry.id.clone(), neighbors: copy_ids(&entry.neighbors) });
        i += 1;
    }
    assert(link_ids(links@) =~= link_ids(layer.links@));
    assert(link_rows(links@) =~= link_rows(layer.links@));
    Layer { links }
}

/// Tells whether no identifier occurs twice in a list.
pub fn all_distinct(ids: &Vec<String>) -> (ok: bool)
    ensures
        ok == ids.deep_view().no_duplicates(),
{
    let ghost names = ids.deep_view();
    let mut i: usize = 0;
    while i < ids.len()
        invariant
            i <= ids.len(),
            names == ids.deep_view(),
            forall|a: int, b: int| 0 <= a < b < i ==> names[a] != names[b],
        decreases ids.len() - i,
    {
        let mut j: usize = 0;
        while j < i
            invariant
                j <= i,
                i < ids.len(),
                names == ids.deep_view(),
                forall|a: int| 0 <= a < j ==> names[a] != names[i as int],
            decreases i - j,
        {
            if ids[j] == ids[i] {
                assert(names[j as int] == names[i as int]);
                return false;
            }
            j += 1;
        }
        i += 1;
    }
    assert forall|a: int, b: int|
        0 <= a < names.len() && 0 <= b < names.len() && a != b implies names[a] != names[b] by {
        if a < b {
            assert(names[a] != names[b]);
        } else {
            assert(names[b] != names[a]);
        }
    }
    true
}

/// The identifiers of a point table, in table order.
fn names_of_points(points: &Vec<Point>) -> (names: Vec<String>)
    ensures
        names.deep_view() == point_ids(points@),
{
    let mut names: Vec<String> = Vec::new();
    let mut i: usize = 0;
    while i < points.len()
        invariant
            i <= points.len(),
            names.len() == i,
            forall|j: int| 0 <= j < i ==> names[j]@ == points[j].id@,
        decreases points.len() - i,
    {
        names.push(points[i].id.clone());
        i += 1;
    }
    assert(names.deep_view() =~= point_ids(points@));
    names
}

/// The identifiers that own an entry of a layer, in entry order.
fn names_of_links(layer: &Layer) -> (names: Vec<String>)
    ensures
        names.deep_view() == link_ids(layer.links@),
{
    let mut names: Vec<String> = Vec::new();
    let mut i: usize = 0;
    while i < layer.links.len()
        invariant
            i <= layer.links.len(),
            names.len() == i,
            forall|j: int| 0 <= j < i ==> names[j]@ == layer.links[j].id@,
        decreases layer.links.len() - i,
    {
        names.push(layer.links[i].id.clone());
        i += 1;
    }
    assert(names.deep_view() =~= link_ids(layer.links@));
    names
}

impl Snapshot {
    /// Tells whether no identifier occurs twice in the point table or in a
    /// layer.
    pub fn is_distinct(&self) -> (ok: bool)
        ensures
            ok == self.distinct(),
    {
        if !all_distinct(&names_of_points(&self.points)) {
            return false;
        }
        let mut l: usize = 0;
        while l < self.layers.len()
            invariant
                l <= self.layers.len(),
                forall|j: int|
                    0 <= j < l ==> #[trigger] link_ids(self.layers[j].links@).no_duplicates(),
            decreases self.layers.len() - l,
        {
            if !all_distinct(&names_of_links(&self.layers[l])) {
                return false;
            }
            l += 1;
        }
        true
    }

    /// Tells whether the snapshot describes an index.
    pub fn is_well_formed(&self) -> (ok: bool)
        ensures
            ok == self.wf(),
    {
        if !self.is_distinct() {
            return false;
        }
        let ghost ids = point_ids(self.points@);
        let ghost rows = point_rows(self.points@);
        let ghost v = self@;
        proof {
            lemma_assoc_len(ids, rows);
            assert forall|l: int| 0 <= l < v.layers.len() implies (
            #[trigger] v.layers[l]).dom().finite() by {
                lemma_assoc_len(link_ids(self.layers[l].links@), link_rows(self.layers[l].links@));
            }
        }
        match &self.entry_point {
            Some(e) => {
                match find_point(&self.points, e) {
                    Some(k) => {
                        assert(ids[k as int] == e@);
                    },
                    None => {
                        return false;
                    },
                }
            },
            None => {},
        }
        assert(v.entry_point is Some ==> v.points.contains_key(v.entry_point->0));
        let mut i: usize = 0;
        while i < self.points.len()
            invariant
                i <= self.points.len(),
                v == self@,
                v.entry_point is Some ==> v.points.contains_key(v.entry_point->0),
                v.points.dom().finite(),
                forall|l: int| 0 <= l < v.layers.len() ==> #[trigger] v.layers[l].dom().finite(),
                ids == point_ids(self.points@),
                rows == point_rows(self.points@),
                self.distinct(),
                forall|a: int|
                    0 <= a < i ==> (#[trigger] rows[a]).vector.len() == self.dimensions
                        || rows[a].vector.len() == 0,
                forall|a: int, l: int|
                    0 <= a < i && 0 <= l <= rows[a].level ==> #[trigger] v.owns(ids[a], l),
                forall|a: int, l: int|
                    0 <= a < i && #[trigger] v.owns(ids[a], l) ==> l <= rows[a].level,
            decreases self.points.len() - i,
        {
            let row = &self.points[i];
            proof {
                lemma_assoc_row(ids, rows, i as int);
                assert(ids[i as int] == row.id@);
                assert(rows[i as int] == row@);
            }
            if row.vector.len() != self.dimensions && row.vector.len() != 0 {
                assert(v.points.contains_key(ids[i as int]));
                return false;
            }
            if row.level >= self.layers.len() {
                assert(!v.owns(ids[i as int], row.level as int));
                return false;
            }
            let mut l: usize = 0;
            while l <= row.level
                invariant
                    l <= row.level + 1,
                    row.level < self.layers.len(),
                    v == self@,
                    ids == point_ids(self.points@),
                    i < self.points.len(),
                    row == &self.points[i as int],
                    ids[i as int] == row.id@,
                    rows[i as int] == row@,
                    rows == point_rows(self.points@),
                    v.points.contains_key(ids[i as int]),
                    v.points[ids[i as int]] == rows[i as int],
                    forall|b: int| 0 <= b < l ==> #[trigger] v.owns(ids[i as int], b),
                decreases row.level + 1 - l,
            {
                match find_links(&self.layers[l], &row.id) {
                    Some(k) => {
                        assert(link_ids(self.layers[l as int].links@)[k as int] == row.id@);
                        assert(v.layers[l as int] == self.layers[l as int]@);
                        assert(v.owns(ids[i as int], l as int));
                    },
                    None => {
                        assert(!v.owns(ids[i as int], l as int));
                        return false;
                    },
                }
                l += 1;
            }
            while l < self.layers.len()
                invariant
                    row.level < l <= self.layers.len(),
                    v == self@,
                    ids == point_ids(self.points@),
                    i < self.points.len(),
                    row == &self.points[i as int],
                    ids[i as int] == row.id@,
                    rows[i as int] == row@,
                    rows == point_rows(self.points@),
                    v.points.contains_key(ids[i as int]),
                    v.points[ids[i as int]] == rows[i as int],
                    forall|b: int| 0 <= b <= row.level ==> #[trigger] v.owns(ids[i as int], b),
                    forall|b: int| row.level < b < l ==> !#[trigger] v.owns(ids[i as int], b),
                decreases self.layers.len() - l,
            {
                match find_links(&self.layers[l], &row.id) {
                    Some(k) => {
                        assert(link_ids(self.layers[l as int].links@)[k as int] == row.id@);
                        assert(v.layers[l as int] == self.layers[l as int]@);
                        assert(v.owns(ids[i as int], l as int));
                        return false;
                    },
                    None => {
                        assert(v.layers[l as int] == self.layers[l as int]@);
                        assert(!v.owns(ids[i as int], l as int));
                    },
                }
                l += 1;
            }
            i += 1;
        }
        proof {
            assert forall|x: Seq<char>| #[trigger] v.points.contains_key(x) implies
                v.points[x].vector.len() == v.dimensions || v.points[x].vector.len() == 0 by {
                let a = choose|a: int| 0 <= a < ids.len() && ids[a] == x;
                lemma_assoc_row(ids, rows, a);
                assert(rows[a].vector.len() == self.dimensions || rows[a].vector.len() == 0);
            }
            assert forall|x: Seq<char>, l: int|
                v.points.contains_key(x) && 0 <= l <= v.points[x].level implies #[trigger] v.owns(
                x,
                l,
            ) by {
                let a = choose|a: int| 0 <= a < ids.len() && ids[a] == x;
                lemma_assoc_row(ids, rows, a);
            }
            assert forall|x: Seq<char>, l: int|
                v.points.contains_key(x) && #[trigger] v.owns(x, l) implies l
                <= v.points[x].level by {
                let a = choose|a: int| 0 <= a < ids.len() && ids[a] == x;
                lemma_assoc_row(ids, rows, a);
            }
        }
        true
    }

    /// Copies the snapshot.
    pub fn duplicate(&self) -> (copy: Snapshot)
        ensures
            copy@ == self@,
            copy.distinct() == self.distinct(),
    {
        let mut layers: Vec<Layer> = Vec::new();
        let mut l: usize = 0;
        while l < self.layers.len()
            invariant
                l <= self.layers.len(),
                layers.len() == l,
                forall|j: int|
                    0 <= j < l ==> link_ids(layers[j].links@) == link_ids(self.layers[j].links@)
                        && link_rows(layers[j].links@) == link_rows(self.layers[j].links@),
            decreases self.layers.len() - l,
        {
            layers.push(copy_layer(&self.layers[l]));
            l += 1;
        }
        let entry_point = match &self.entry_point {
            Some(e) => Some(e.clone()),
            None => None,
        };
        let copy = Snapshot {
            params: self.params,
            points: copy_points(&self.points),
            layers,
            entry_point,
            dimensions: self.dimensions,
        };
        assert(copy@.layers =~= self@.layers);
        assert forall|j: int| 0 <= j < self.layers.len() implies link_ids(copy.layers[j].links@)
            == link_ids(self.layers[j].links@) by {}
        assert(copy.distinct() == self.distinct());
        copy
    }
}

impl HNSWIndex {
    /// A snapshot holds the state of this index: it is well formed and
    /// describes the same points, layers, entry point and dimensionality.
    pub open spec fn saved_as(&self, snapshot: Snapshot) -> bool {
        snapshot.wf() && snapshot@ == self@
    }

    /// What loading a snapshot does to an index: a well-formed snapshot
    /// becomes the state of the index, any other is refused and leaves the
    /// index as it was.
    pub open spec fn loaded(
        before: HNSWIndex,
        snapshot: Snapshot,
        after: HNSWIndex,
        result: Result<(), HnswError>,
    ) -> bool {
        match result {
            Ok(_) => snapshot.wf() && after@ == snapshot@,
            Err(e) => !snapshot.wf() && e == HnswError::DeserializationError && after == before,
        }
    }

    /// Captures the whole state of the index as plain data.
    pub fn save(&self) -> (snapshot: Snapshot)
        requires
            self.wf(),
        ensures
            self.saved_as(snapshot),
    {
        self.state.duplicate()
    }

    /// Replaces the whole state of the index by a snapshot. A snapshot that
    /// does not describe an index is refused, and the index stays as it was.
    pub fn load(&mut self, snapshot: Snapshot) -> (result: Result<(), HnswError>)
        requires
            old(self).wf(),
        ensures
            final(self).wf(),
            HNSWIndex::loaded(*old(self), snapshot, *final(self), result),
    {
        if snapshot.is_well_formed() {
            self.state = snapshot;
            Ok(())
        } else {
            Err(HnswError::DeserializationError)
        }
    }
}

} // verus!
