use vstd::prelude::*;

verus! {

/// The distance functions an index can be built with.
#[derive(Debug, Clone, Copy, PartialEq, Eq, Structural)]
pub enum DistanceMetric {
    Euclidean,
    Cosine,
}

/// Links an application record to the id it is indexed under.
#[derive(Debug, Clone)]
pub struct Document<T> {
    pub id: String,
    pub data: T,
}

} // verus!
