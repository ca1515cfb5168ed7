use vstd::prelude::*;

verus! {

/// What the index knows of a point besides its identifier.
pub struct PointView {
    pub vector: Seq<u32>,
    pub level: nat,
}

/// A stored point: its identifier, the bit patterns of its components and
/// the highest layer it belongs to.
#[derive(Debug)]
pub struct Point {
    pub id: String,
    pub vector: Vec<u32>,
    pub level: usize,
}

impl View for Point {
    type V = PointView;

    open spec fn view(&self) -> PointView {
        PointView { vector: self.vector@, level: self.level as nat }
    }
}

/// One adjacency entry of a layer: a point and the neighbours it links to.
#[derive(Debug)]
pub struct Adjacency {
    pub id: String,
    pub neighbors: Vec<String>,
}

/// One layer of the graph, as a list of adjacency entries.
#[derive(Debug)]
pub struct Layer {
    pub links: Vec<Adjacency>,
}

/// A list of keys with a list of values of the same length, read as a map.
/// Where no key occurs twice, each key maps to the value at its position.
pub open spec fn assoc<V>(keys: Seq<Seq<char>>, values: Seq<V>) -> Map<Seq<char>, V> {
    Map::new(|k: Seq<char>| keys.contains(k), |k: Seq<char>| values[keys.index_of(k)])
}

/// The identifiers of a point table, in table order.
pub open spec fn point_ids(points: Seq<Point>) -> Seq<Seq<char>> {
    Seq::new(points.len(), |i: int| points[i].id@)
}

/// The rows of a point table without their identifiers.
pub open spec fn point_rows(points: Seq<Point>) -> Seq<PointView> {
    Seq::new(points.len(), |i: int| points[i]@)
}

/// A point table read as a map from identifier to point.
pub open spec fn point_table(points: Seq<Point>) -> Map<Seq<char>, PointView> {
    assoc(point_ids(points), point_rows(points))
}

/// The identifiers that own an adjacency entry, in entry order.
pub open spec fn link_ids(links: Seq<Adjacency>) -> Seq<Seq<char>> {
    Seq::new(links.len(), |i: int| links[i].id@)
}

/// The neighbour lists of a layer, in entry order.
pub open spec fn link_rows(links: Seq<Adjacency>) -> Seq<Seq<Seq<char>>> {
    Seq::new(links.len(), |i: int| links[i].neighbors.deep_view())
}

impl View for Layer {
    type V = Map<Seq<char>, Seq<Seq<char>>>;

    /// A layer read as a map from identifier to neighbour list.
    open spec fn view(&self) -> Map<Seq<char>, Seq<Seq<char>>> {
        assoc(link_ids(self.links@), link_rows(self.links@))
    }
}

/// A neighbour list without a given identifier.
pub open spec fn strip(neighbors: Seq<Seq<char>>, id: Seq<char>) -> Seq<Seq<char>> {
    neighbors.filter(|n: Seq<char>| n != id)
}

/// The function that takes a given identifier out of a neighbour list.
pub open spec fn stripper(id: Seq<char>) -> spec_fn(Seq<Seq<char>>) -> Seq<Seq<char>> {
    |neighbors: Seq<Seq<char>>| strip(neighbors, id)
}

/// A layer from which a point was scrubbed: its own entry is gone, and so
/// is every mention of it in the other entries.
pub open spec fn scrub(layer: Map<Seq<char>, Seq<Seq<char>>>, id: Seq<char>) -> Map<
    Seq<char>,
    Seq<Seq<char>>,
> {
    layer.remove(id).map_values(stripper(id))
}

/// Stripping a list that grew by one entry strips the entry if it is the
/// given identifier and keeps it otherwise.
pub proof fn lemma_strip_push(neighbors: Seq<Seq<char>>, last: Seq<char>, id: Seq<char>)
    ensures
        strip(neighbors.push(last), id) == if last == id {
            strip(neighbors, id)
        } else {
            strip(neighbors, id).push(last)
        },
{
    reveal(Seq::filter);
    assert(neighbors.push(last).drop_last() =~= neighbors);
}

/// A stripped list no longer holds the identifier.
pub proof fn lemma_strip_absent(neighbors: Seq<Seq<char>>, id: Seq<char>)
    ensures
        !strip(neighbors, id).contains(id),
{
    let pred = |n: Seq<char>| n != id;
    if strip(neighbors, id).contains(id) {
        let i = choose|i: int| 0 <= i < strip(neighbors, id).len() && strip(neighbors, id)[i] == id;
        neighbors.lemma_filter_pred(pred, i);
    }
}

/// Each key maps to the value at its own position.
pub proof fn lemma_assoc_row<V>(keys: Seq<Seq<char>>, values: Seq<V>, i: int)
    requires
        keys.no_duplicates(),
        0 <= i < keys.len(),
    ensures
        assoc(keys, values).contains_key(keys[i]),
        assoc(keys, values)[keys[i]] == values[i],
{
    let j = keys.index_of(keys[i]);
    assert(0 <= j < keys.len() && keys[j] == keys[i]);
}

/// The map has as many keys as the list, each once.
pub proof fn lemma_assoc_len<V>(keys: Seq<Seq<char>>, values: Seq<V>)
    requires
        keys.no_duplicates(),
    ensures
        assoc(keys, values).dom().finite(),
        assoc(keys, values).dom().len() == keys.len(),
{
    assert(assoc(keys, values).dom() =~= keys.to_set());
    vstd::seq_lib::seq_to_set_is_finite(keys);
    keys.unique_seq_to_set();
}

/// Appending a fresh key adds one entry to the map.
pub proof fn lemma_assoc_push<V>(keys: Seq<Seq<char>>, values: Seq<V>, k: Seq<char>, v: V)
    requires
        keys.no_duplicates(),
        keys.len() == values.len(),
        !keys.contains(k),
    ensures
        keys.push(k).no_duplicates(),
        assoc(keys.push(k), values.push(v)) == assoc(keys, values).insert(k, v),
{
    let keys2 = keys.push(k);
    let values2 = values.push(v);
    assert forall|i: int, j: int|
        0 <= i < keys2.len() && 0 <= j < keys2.len() && i != j implies keys2[i] != keys2[j] by {
        if i < keys.len() {
            assert(keys.contains(keys[i]));
        }
        if j < keys.len() {
            assert(keys.contains(keys[j]));
        }
    }
    let lhs = assoc(keys2, values2);
    let rhs = assoc(keys, values).insert(k, v);
    assert forall|x: Seq<char>| lhs.contains_key(x) <==> rhs.contains_key(x) by {
        if keys2.contains(x) {
            let i = choose|i: int| 0 <= i < keys2.len() && keys2[i] == x;
            if i < keys.len() {
                assert(keys[i] == x);
            }
        }
        if keys.contains(x) {
            let i = choose|i: int| 0 <= i < keys.len() && keys[i] == x;
            assert(keys2[i] == x);
        }
        assert(keys2[keys.len() as int] == k);
    }
    assert forall|x: Seq<char>| lhs.contains_key(x) implies lhs[x] == rhs[x] by {
        let i = choose|i: int| 0 <= i < keys2.len() && keys2[i] == x;
        lemma_assoc_row(keys2, values2, i);
        if i < keys.len() {
            lemma_assoc_row(keys, values, i);
            assert(keys.contains(keys[i]));
        }
    }
    assert(lhs =~= rhs);
}

/// Replacing the value at a position replaces the entry of its key.
pub proof fn lemma_assoc_update<V>(keys: Seq<Seq<char>>, values: Seq<V>, i: int, v: V)
    requires
        keys.no_duplicates(),
        keys.len() == values.len(),
        0 <= i < keys.len(),
    ensures
        assoc(keys, values.update(i, v)) == assoc(keys, values).insert(keys[i], v),
{
    let lhs = assoc(keys, values.update(i, v));
    let rhs = assoc(keys, values).insert(keys[i], v);
    assert(keys.contains(keys[i]));
    assert forall|x: Seq<char>| lhs.contains_key(x) implies lhs[x] == rhs[x] by {
        let j = choose|j: int| 0 <= j < keys.len() && keys[j] == x;
        lemma_assoc_row(keys, values.update(i, v), j);
        lemma_assoc_row(keys, values, j);
    }
    assert(lhs =~= rhs);
}

/// Dropping a position drops the entry of its key.
pub proof fn lemma_assoc_remove<V>(keys: Seq<Seq<char>>, values: Seq<V>, i: int)
    requires
        keys.no_duplicates(),
        keys.len() == values.len(),
        0 <= i < keys.len(),
    ensures
        keys.remove(i).no_duplicates(),
        !keys.remove(i).contains(keys[i]),
        assoc(keys.remove(i), values.remove(i)) == assoc(keys, values).remove(keys[i]),
{
    let keys2 = keys.remove(i);
    let values2 = values.remove(i);
    assert forall|a: int| 0 <= a < keys2.len() implies keys2[a] == keys[if a < i {
        a
    } else {
        a + 1
    }] && values2[a] == values[if a < i {
        a
    } else {
        a + 1
    }] by {}
    assert(keys2.no_duplicates());
    if keys2.contains(keys[i]) {
        let a = choose|a: int| 0 <= a < keys2.len() && keys2[a] == keys[i];
        assert(keys[if a < i { a } else { a + 1 }] == keys[i]);
    }
    let lhs = assoc(keys2, values2);
    let rhs = assoc(keys, values).remove(keys[i]);
    assert forall|x: Seq<char>| lhs.contains_key(x) <==> rhs.contains_key(x) by {
        if keys2.contains(x) {
            let a = choose|a: int| 0 <= a < keys2.len() && keys2[a] == x;
            assert(keys[if a < i { a } else { a + 1 }] == x);
        }
        if keys.contains(x) && x != keys[i] {
            let b = choose|b: int| 0 <= b < keys.len() && keys[b] == x;
            assert(keys2[if b < i { b } else { b - 1 }] == x);
        }
    }
    assert forall|x: Seq<char>| lhs.contains_key(x) implies lhs[x] == rhs[x] by {
        let a = choose|a: int| 0 <= a < keys2.len() && keys2[a] == x;
        lemma_assoc_row(keys2, values2, a);
        lemma_assoc_row(keys, values, if a < i { a } else { a + 1 });
    }
    assert(lhs =~= rhs);
}

/// Changing every value in place changes every entry of the map alike.
pub proof fn lemma_assoc_map_values<V, W>(keys: Seq<Seq<char>>, values: Seq<V>, f: spec_fn(V) -> W)
    requires
        keys.no_duplicates(),
        keys.len() == values.len(),
    ensures
        assoc(keys, values.map_values(f)) == assoc(keys, values).map_values(f),
{
    let lhs = assoc(keys, values.map_values(f));
    let rhs = assoc(keys, values).map_values(f);
    assert forall|x: Seq<char>| lhs.contains_key(x) implies lhs[x] == rhs[x] by {
        let j = choose|j: int| 0 <= j < keys.len() && keys[j] == x;
        lemma_assoc_row(keys, values.map_values(f), j);
        lemma_assoc_row(keys, values, j);
    }
    assert(lhs =~= rhs);
}

/// In a table without repeated identifiers, the map holds each row under its
/// own identifier.
pub proof fn lemma_point_table_row(points: Seq<Point>, i: int)
    requires
        point_ids(points).no_duplicates(),
        0 <= i < points.len(),
    ensures
        point_table(points).contains_key(points[i].id@),
        point_table(points)[points[i].id@] == points[i]@,
{
    lemma_assoc_row(point_ids(points), point_rows(points), i);
}

/// Finds the first row of a point table that carries a given identifier.
pub fn find_point(points: &Vec<Point>, id: &String) -> (found: Option<usize>)
    ensures
        match found {
            Some(i) => i < points.len() && points[i as int].id@ == id@ && forall|j: int|
                0 <= j < i ==> points[j].id@ != id@,
            None => !point_ids(points@).contains(id@),
        },
{
    let mut i: usize = 0;
    while i < points.len()
        invariant
            i <= points.len(),
            forall|j: int| 0 <= j < i ==> points[j].id@ != id@,
        decreases points.len() - i,
    {
        if points[i].id == *id {
            return Some(i);
        }
        i += 1;
    }
    assert(forall|j: int| 0 <= j < points.len() ==> point_ids(points@)[j] == points[j].id@);
    None
}

/// Finds the first adjacency entry that an identifier owns in a layer.
pub fn find_links(layer: &Layer, id: &String) -> (found: Option<usize>)
    ensures
        match found {
            Some(i) => i < layer.links.len() && layer.links[i as int].id@ == id@ && forall|j: int|
                0 <= j < i ==> layer.links[j].id@ != id@,
            None => !link_ids(layer.links@).contains(id@),
        },
{
    let mut i: usize = 0;
    while i < layer.links.len()
        invariant
            i <= layer.links.len(),
            forall|j: int| 0 <= j < i ==> layer.links[j].id@ != id@,
        decreases layer.links.len() - i,
    {
        if layer.links[i].id == *id {
            return Some(i);
        }
        i += 1;
    }
    assert(forall|j: int|
        0 <= j < layer.links.len() ==> link_ids(layer.links@)[j] == layer.links[j].id@);
    None
}

/// Tells whether a list of identifiers holds a given one.
pub fn holds_id(ids: &Vec<String>, id: &String) -> (held: bool)
    ensures
        held == ids.deep_view().contains(id@),
{
    let mut i: usize = 0;
    while i < ids.len()
        invariant
            i <= ids.len(),
            forall|j: int| 0 <= j < i ==> ids[j]@ != id@,
        decreases ids.len() - i,
    {
        if ids[i] == *id {
            assert(ids.deep_view()[i as int] == id@);
            return true;
        }
        i += 1;
    }
    assert(forall|j: int| 0 <= j < ids.len() ==> ids.deep_view()[j] == ids[j]@);
    false
}

/// Takes every occurrence of an identifier out of a neighbour list.
pub fn strip_neighbors(neighbors: &mut Vec<String>, id: &String)
    ensures
        final(neighbors).deep_view() == strip(old(neighbors).deep_view(), id@),
{
    let ghost all = neighbors.deep_view();
    let mut kept: Vec<String> = Vec::new();
    let mut j: usize = 0;
    assert(all.take(0) =~= Seq::empty());
    assert(strip(Seq::empty(), id@) =~= Seq::empty()) by {
        reveal(Seq::filter);
    }
    assert(kept.deep_view() =~= Seq::empty());
    while j < neighbors.len()
        invariant
            j <= neighbors.len(),
            all == neighbors.deep_view(),
            kept.deep_view() == strip(all.take(j as int), id@),
        decreases neighbors.len() - j,
    {
        let ghost so_far = kept.deep_view();
        proof {
            lemma_strip_push(all.take(j as int), all[j as int], id@);
            assert(all.take(j + 1) =~= all.take(j as int).push(all[j as int]));
        }
        if !(neighbors[j] == *id) {
            kept.push(neighbors[j].clone());
            assert(kept.deep_view() =~= so_far.push(all[j as int]));
        }
        j += 1;
    }
    assert(all.take(j as int) =~= all);
    *neighbors = kept;
}

/// Scrubs a point from a layer: drops the adjacency entry it owns and takes
/// it out of every other neighbour list.
pub fn scrub_layer(layer: &mut Layer, id: &String)
    requires
        link_ids(old(layer).links@).no_duplicates(),
    ensures
        link_ids(final(layer).links@).no_duplicates(),
        final(layer)@ == scrub(old(layer)@, id@),
{
    let ghost keys = link_ids(layer.links@);
    let ghost rows = link_rows(layer.links@);
    match find_links(layer, id) {
        Some(i) => {
            proof {
                assert(keys[i as int] == id@);
                lemma_assoc_remove(keys, rows, i as int);
            }
            layer.links.remove(i);
            assert(link_ids(layer.links@) =~= keys.remove(i as int));
            assert(link_rows(layer.links@) =~= rows.remove(i as int));
        },
        None => {
            assert(assoc(keys, rows).remove(id@) =~= assoc(keys, rows));
        },
    }
    let ghost kept_keys = link_ids(layer.links@);
    let ghost kept_rows = link_rows(layer.links@);
    assert(assoc(kept_keys, kept_rows) == old(layer)@.remove(id@));
    let mut j: usize = 0;
    while j < layer.links.len()
        invariant
            j <= layer.links.len(),
            kept_keys.no_duplicates(),
            kept_keys.len() == kept_rows.len(),
            link_ids(layer.links@) == kept_keys,
            link_rows(layer.links@).len() == kept_rows.len(),
            forall|a: int|
                0 <= a < j ==> #[trigger] link_rows(layer.links@)[a] == strip(kept_rows[a], id@),
            forall|a: int|
                j <= a < kept_rows.len() ==> #[trigger] link_rows(layer.links@)[a] == kept_rows[a],
        decreases layer.links.len() - j,
    {
        let ghost prev = layer.links@;
        assert(link_rows(prev)[j as int] == kept_rows[j as int]);
        strip_neighbors(&mut layer.links[j].neighbors, id);
        assert(link_ids(layer.links@) =~= kept_keys);
        assert(link_rows(layer.links@)[j as int] == strip(link_rows(prev)[j as int], id@));
        assert forall|a: int| 0 <= a < kept_rows.len() && a != j implies #[trigger] link_rows(
            layer.links@,
        )[a] == link_rows(prev)[a] by {
            assert(layer.links@[a] == prev[a]);
        }
        j += 1;
    }
    proof {
        assert(link_rows(layer.links@) =~= kept_rows.map_values(stripper(id@)));
        lemma_assoc_map_values(kept_keys, kept_rows, stripper(id@));
    }
}

/// Gives an identifier an empty adjacency entry in a layer, in place of the
/// entry it owns there, if any.
pub fn reset_links(layer: &mut Layer, id: &String)
    requires
        link_ids(old(layer).links@).no_duplicates(),
    ensures
        link_ids(final(layer).links@).no_duplicates(),
        final(layer)@ == old(layer)@.insert(id@, Seq::empty()),
{
    let ghost keys = link_ids(layer.links@);
    let ghost rows = link_rows(layer.links@);
    match find_links(layer, id) {
        Some(i) => {
            proof {
                assert(keys[i as int] == id@);
                lemma_assoc_update(keys, rows, i as int, Seq::empty());
            }
            layer.links[i].neighbors.clear();
            assert(link_ids(layer.links@) =~= keys);
            assert(layer.links[i as int].neighbors.deep_view() =~= Seq::empty());
            assert(link_rows(layer.links@) =~= rows.update(i as int, Seq::empty()));
        },
        None => {
            proof {
                lemma_assoc_push(keys, rows, id@, Seq::empty());
            }
            layer.links.push(Adjacency { id: id.clone(), neighbors: Vec::new() });
            assert(link_ids(layer.links@) =~= keys.push(id@));
            assert(layer.links[keys.len() as int].neighbors.deep_view() =~= Seq::empty());
            assert(link_rows(layer.links@) =~= rows.push(Seq::empty()));
        },
    }
}

/// Drops the adjacency entry that an identifier owns in a layer, if any.
pub fn drop_links(layer: &mut Layer, id: &String)
    requires
        link_ids(old(layer).links@).no_duplicates(),
    ensures
        link_ids(final(layer).links@).no_duplicates(),
        final(layer)@ == old(layer)@.remove(id@),
{
    let ghost keys = link_ids(layer.links@);
    let ghost rows = link_rows(layer.links@);
    match find_links(layer, id) {
        Some(i) => {
            proof {
                assert(keys[i as int] == id@);
                lemma_assoc_remove(keys, rows, i as int);
            }
            layer.links.remove(i);
            assert(link_ids(layer.links@) =~= keys.remove(i as int));
            assert(link_rows(layer.links@) =~= rows.remove(i as int));
        },
        None => {
            assert(assoc(keys, rows).remove(id@) =~= assoc(keys, rows));
        },
    }
}

} // verus!
