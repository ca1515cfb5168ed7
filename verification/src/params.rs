use vstd::prelude::*;

verus! {

/// Tuning knobs of an index, fixed when the index is built.
///
/// `m` is the branching factor: a new point climbs one more level with
/// probability `1/m`. `ef_search` is the least number of candidates a search
/// keeps, and `ef_construction` the breadth reserved for insertion.
#[derive(Clone, Copy, Debug, PartialEq, Eq, Structural)]
pub struct HNSWParams {
    pub m: usize,
    pub ef_construction: usize,
    pub ef_search: usize,
}

impl Default for HNSWParams {
    fn default() -> (params: HNSWParams)
        ensures
            params == (HNSWParams { m: 16, ef_construction: 200, ef_search: 64 }),
    {
        HNSWParams { m: 16, ef_construction: 200, ef_search: 64 }
    }
}

} // verus!
