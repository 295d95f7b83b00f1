use vstd::prelude::*;
use vstd::hash_map::StringHashMap;
use crate::types::DistanceMetric;

pub mod search;
pub mod insert;
pub mod remove;
pub mod batch;

verus! {

/// Number of layers a node can take part in; levels at or above it are
/// never searched from the top.
pub const MAX_LAYERS: usize = 11;

/// Why an operation on the graph was refused.
#[derive(Debug, Clone, Copy, PartialEq, Eq, Structural)]
pub enum GraphError {
    /// The id is already stored.
    DuplicateId,
    /// The id is not stored.
    NotFound,
    /// A batch repeats an id, or names one that is already stored.
    BatchDuplicateId,
}

/// The construction parameters of a graph.
#[derive(Debug, Clone, Copy, PartialEq, Eq, Structural)]
pub struct HnswParams {
    /// Target number of neighbours on the layers above 0.
    pub m: usize,
    /// Target number of neighbours on layer 0.
    pub m_max: usize,
    /// Width of the candidate lists of a layer search.
    pub ef_construction: usize,
    pub distance_metric: DistanceMetric,
}

/// The mathematical content of a graph: slot-indexed ids, items and
/// per-layer neighbour lists, the id-to-slot map and the entry point.
pub struct GraphView<E> {
    pub ids: Seq<Seq<char>>,
    pub items: Seq<E>,
    pub layers: Seq<Seq<Seq<usize>>>,
    pub slots: Map<Seq<char>, usize>,
    pub entry: Option<usize>,
    pub params: HnswParams,
}

impl<E> GraphView<E> {
    pub open spec fn len(&self) -> nat {
        self.ids.len()
    }

    /// The highest layer that node `i` takes part in.
    pub open spec fn level(&self, i: int) -> int {
        self.layers[i].len() - 1
    }

    pub open spec fn in_layer(&self, i: int, layer: int) -> bool {
        0 <= layer < self.layers[i].len()
    }

    pub open spec fn ids_unique(&self) -> bool {
        forall|i: int, j: int|
            0 <= i < self.len() && 0 <= j < self.len() && i != j ==> self.ids[i] != self.ids[j]
    }

    /// The id map is a bijection between the stored ids and the slots.
    pub open spec fn slots_match(&self) -> bool {
        &&& forall|i: int|
            0 <= i < self.len() ==> #[trigger] self.slots.contains_key(self.ids[i])
                && self.slots[self.ids[i]] == i
        &&& forall|k: Seq<char>|
            #[trigger] self.slots.contains_key(k) ==> self.slots[k] < self.len()
                && self.ids[self.slots[k] as int] == k
    }

    /// Every neighbour is a stored node other than the node itself, and
    /// takes part in the layer of the edge.
    pub open spec fn links_valid(&self) -> bool {
        forall|i: int, l: int, p: int|
            0 <= i < self.len() && 0 <= l < self.layers[i].len() && 0 <= p
                < self.layers[i][l].len() ==> {
                let j = #[trigger] self.layers[i][l][p];
                &&& j < self.len()
                &&& j != i
                &&& l < self.layers[j as int].len()
            }
    }

    /// The entry point exists exactly when the graph is not empty, and no
    /// node reaches a higher layer than it.
    pub open spec fn entry_valid(&self) -> bool {
        &&& (self.entry is None <==> self.len() == 0)
        &&& self.entry matches Some(e) ==> {
            &&& e < self.len()
            &&& forall|i: int| 0 <= i < self.len() ==> #[trigger] self.layers[i].len() <= self.layers[e as int].len()
        }
    }

    pub open spec fn well_formed(&self) -> bool {
        &&& self.len() <= usize::MAX
        &&& self.items.len() == self.len()
        &&& self.layers.len() == self.len()
        &&& forall|i: int| 0 <= i < self.len() ==> #[trigger] self.layers[i].len() >= 1
        &&& self.ids_unique()
        &&& self.slots_match()
        &&& self.links_valid()
        &&& self.entry_valid()
    }

    /// Every edge has its reverse edge in the same layer.
    pub open spec fn symmetric(&self) -> bool {
        forall|i: int, l: int, p: int|
            0 <= i < self.len() && 0 <= l < self.layers[i].len() && 0 <= p
                < self.layers[i][l].len() ==> self.layers[#[trigger] self.layers[i][l][p] as int][l].contains(
                i as usize,
            )
    }
}

/// Slot `x` after slot `s` has been taken out.
pub open spec fn shift(x: usize, s: usize) -> usize {
    if x > s {
        (x - 1) as usize
    } else {
        x
    }
}

/// A neighbour list after slot `s` has been taken out: `s` is dropped and
/// every later slot moves down by one.
pub open spec fn relink(lst: Seq<usize>, s: usize) -> Seq<usize>
    decreases lst.len(),
{
    if lst.len() == 0 {
        Seq::empty()
    } else {
        let rest = relink(lst.drop_last(), s);
        if lst.last() == s {
            rest
        } else {
            rest.push(shift(lst.last(), s))
        }
    }
}

/// The slot that node `i` held before slot `s` was taken out.
pub open spec fn origin(i: int, s: int) -> int {
    if i < s {
        i
    } else {
        i + 1
    }
}

/// Index of the first node among the first `n` whose level is the highest.
pub open spec fn first_highest(layers: Seq<Seq<Seq<usize>>>, n: int) -> int
    decreases n,
{
    if n <= 1 {
        0
    } else {
        let b = first_highest(layers, n - 1);
        if layers[n - 1].len() > layers[b].len() {
            n - 1
        } else {
            b
        }
    }
}

/// `new` is `old` with the node at slot `s` removed, the id map and every
/// neighbour list re-indexed, and the entry point recovered.
pub open spec fn removal_of<E>(old: GraphView<E>, s: int, new: GraphView<E>) -> bool {
    &&& new.ids == old.ids.remove(s)
    &&& new.items == old.items.remove(s)
    &&& new.layers.len() == old.len() - 1
    &&& forall|i: int|
        0 <= i < new.len() ==> #[trigger] new.layers[i].len() == old.layers[origin(i, s)].len()
    &&& forall|i: int, l: int|
        0 <= i < new.len() && 0 <= l < new.layers[i].len() ==> #[trigger] new.layers[i][l] == relink(
            old.layers[origin(i, s)][l],
            s as usize,
        )
    &&& forall|k: Seq<char>|
        #[trigger] new.slots.contains_key(k) <==> old.slots.contains_key(k) && k != old.ids[s]
    &&& forall|k: Seq<char>| #[trigger] new.slots.contains_key(k) ==> new.slots[k] == shift(old.slots[k], s as usize)
    &&& new.entry == match old.entry {
        Some(e) => if e == s {
            if new.len() == 0 {
                None
            } else {
                Some(first_highest(new.layers, new.len() as int) as usize)
            }
        } else {
            Some(shift(e, s as usize))
        },
        None => None,
    }
}

/// An HNSW index over items of type `E`: the nodes, their neighbour lists
/// per layer, the id-to-slot map and the entry point.
pub struct HNSWIndex<E> {
    ids: Vec<String>,
    items: Vec<E>,
    links: Vec<Vec<Vec<usize>>>,
    slots: StringHashMap<usize>,
    entry: Option<usize>,
    params: HnswParams,
}

impl<E> View for HNSWIndex<E> {
    type V = GraphView<E>;

    closed spec fn view(&self) -> GraphView<E> {
        GraphView {
            ids: self.ids@.map_values(|s: String| s@),
            items: self.items@,
            layers: self.links@.map_values(
                |v: Vec<Vec<usize>>| v@.map_values(|w: Vec<usize>| w@),
            ),
            slots: self.slots@,
            entry: self.entry,
            params: self.params,
        }
    }
}

impl<E> HNSWIndex<E> {
    pub closed spec fn wf(&self) -> bool {
        &&& self.ids.len() == self.items.len()
        &&& self.ids.len() == self.links.len()
        &&& self@.well_formed()
    }

    /// A graph that keeps its internal invariant is well formed.
    pub proof fn lemma_wf(&self)
        requires
            self.wf(),
        ensures
            self@.well_formed(),
    {
    }

    /// An empty graph. `_dim` is informational: nothing checks it.
    pub fn new(_dim: usize, m: usize, ef_construction: usize) -> (r: Self)
        ensures
            r.wf(),
            r@.well_formed(),
            r@.len() == 0,
            r@.slots == Map::<Seq<char>, usize>::empty(),
            r@.entry is None,
            r@.params == (HnswParams {
                m,
                m_max: m,
                ef_construction,
                distance_metric: DistanceMetric::Euclidean,
            }),
    {
        Self::new_with_distance(_dim, m, ef_construction, DistanceMetric::Euclidean)
    }

    /// An empty graph for the given metric.
    pub fn new_with_distance(
        _dim: usize,
        m: usize,
        ef_construction: usize,
        distance_metric: DistanceMetric,
    ) -> (r: Self)
        ensures
            r.wf(),
            r@.well_formed(),
            r@.len() == 0,
            r@.slots == Map::<Seq<char>, usize>::empty(),
            r@.entry is None,
            r@.params == (HnswParams { m, m_max: m, ef_construction, distance_metric }),
    {
        let r = HNSWIndex {
            ids: Vec::new(),
            items: Vec::new(),
            links: Vec::new(),
            slots: StringHashMap::new(),
            entry: None,
            params: HnswParams { m, m_max: m, ef_construction, distance_metric },
        };
        assert(r@.ids.len() == 0);
        assert(r@.slots =~= Map::<Seq<char>, usize>::empty());
        r
    }

    pub fn len(&self) -> (r: usize)
        requires
            self.wf(),
        ensures
            r == self@.len(),
    {
        self.ids.len()
    }

    pub fn is_empty(&self) -> (r: bool)
        requires
            self.wf(),
        ensures
            r == (self@.len() == 0),
    {
        self.ids.len() == 0
    }

    pub fn contains(&self, id: &str) -> (r: bool)
        requires
            self.wf(),
        ensures
            r == self@.slots.contains_key(id@),
            r == self@.ids.contains(id@),
    {
        let r = self.slots.contains_key(id);
        proof {
            if r {
                let i = self@.slots[id@] as int;
                assert(self@.ids[i] == id@);
            }
            if self@.ids.contains(id@) {
                let i = choose|i: int| 0 <= i < self@.len() && self@.ids[i] == id@;
                assert(self@.slots.contains_key(self@.ids[i]));
            }
        }
        r
    }

    /// The slot that holds `id`.
    pub fn slot_of(&self, id: &str) -> (r: Option<usize>)
        requires
            self.wf(),
        ensures
            r == (if self@.slots.contains_key(id@) {
                Some(self@.slots[id@])
            } else {
                None
            }),
            r matches Some(s) ==> s < self@.len() && self@.ids[s as int] == id@,
    {
        match self.slots.get(id) {
            Some(s) => {
                assert(self@.slots.contains_key(id@));
                Some(*s)
            },
            None => None,
        }
    }

    pub fn params(&self) -> (r: HnswParams)
        ensures
            r == self@.params,
    {
        self.params
    }

    pub fn entry_point(&self) -> (r: Option<usize>)
        ensures
            r == self@.entry,
    {
        self.entry
    }

    pub fn id_at(&self, slot: usize) -> (r: &String)
        requires
            self.wf(),
            slot < self@.len(),
        ensures
            r@ == self@.ids[slot as int],
    {
        &self.ids[slot]
    }

    pub fn item_at(&self, slot: usize) -> (r: &E)
        requires
            self.wf(),
            slot < self@.len(),
        ensures
            *r == self@.items[slot as int],
    {
        &self.items[slot]
    }

    /// The neighbour lists of a node, one per layer it takes part in.
    pub fn connections_at(&self, slot: usize) -> (r: &Vec<Vec<usize>>)
        requires
            self.wf(),
            slot < self@.len(),
        ensures
            r@.map_values(|w: Vec<usize>| w@) == self@.layers[slot as int],
    {
        &self.links[slot]
    }

    /// The highest layer a node takes part in.
    pub fn level_at(&self, slot: usize) -> (r: usize)
        requires
            self.wf(),
            slot < self@.len(),
        ensures
            r == self@.level(slot as int),
    {
        assert(self@.layers[slot as int].len() >= 1);
        self.links[slot].len() - 1
    }

    /// The ids in slot order.
    pub fn get_all_ids(&self) -> (r: Vec<String>)
        requires
            self.wf(),
        ensures
            r@.map_values(|s: String| s@) == self@.ids,
    {
        let mut r: Vec<String> = Vec::new();
        let mut i: usize = 0;
        assert(r@.map_values(|s: String| s@) =~= self@.ids.subrange(0, 0));
        while i < self.ids.len()
            invariant
                self.wf(),
                i <= self.ids.len(),
                r.len() == i,
                r@.map_values(|s: String| s@) == self@.ids.subrange(0, i as int),
            decreases self.ids.len() - i,
        {
            let ghost prev = r@;
            r.push(self.ids[i].clone());
            assert(self@.ids[i as int] == self.ids@[i as int]@);
            i += 1;
            assert(r@.map_values(|s: String| s@) =~= self@.ids.subrange(0, i as int));
        }
        assert(self@.ids.subrange(0, i as int) =~= self@.ids);
        r
    }

    /// Removes every node.
    pub fn clear(&mut self)
        requires
            old(self).wf(),
        ensures
            final(self).wf(),
            final(self)@.well_formed(),
            final(self)@.len() == 0,
            final(self)@.slots == Map::<Seq<char>, usize>::empty(),
            final(self)@.entry is None,
            final(self)@.params == old(self)@.params,
    {
        self.ids.clear();
        self.items.clear();
        self.links.clear();
        self.slots.clear();
        self.entry = None;
        assert(self@.ids.len() == 0);
        assert(self@.slots =~= Map::empty());
    }
}

} // verus!
