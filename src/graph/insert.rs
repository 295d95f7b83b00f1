use vstd::prelude::*;
use super::{GraphView, HNSWIndex, GraphError, MAX_LAYERS};
use super::search::{layer_result, slots_of, selection, greedy, best_pos, search_result};

verus! {

/// Neighbour lists fit for a node of the given level in `g`: one list per
/// layer, each naming stored nodes of that layer other than `exclude`, none
/// twice.
pub open spec fn fit_links<E>(g: GraphView<E>, level: nat, exclude: Option<usize>, conns: Seq<Seq<usize>>) -> bool {
    &&& conns.len() == level + 1
    &&& forall|l: int| 0 <= l < conns.len() ==> (#[trigger] conns[l]).no_duplicates()
    &&& forall|l: int, p: int|
        0 <= l < conns.len() && 0 <= p < conns[l].len() ==> {
            let j = #[trigger] conns[l][p];
            &&& j < g.len()
            &&& g.in_layer(j as int, l)
            &&& exclude != Some(j)
        }
}

/// The graph after a sequential insertion of a node with id `id`, item
/// `item` and neighbour lists `conns`: an old list gains the new slot at its
/// end, once, exactly when the new node lists the old node on that layer,
/// and is otherwise unchanged.
pub open spec fn insertion_of<E>(old: GraphView<E>, id: Seq<char>, item: E, conns: Seq<Seq<usize>>, new: GraphView<E>) -> bool {
    let n = old.len();
    &&& new.ids == old.ids.push(id)
    &&& new.items == old.items.push(item)
    &&& new.layers.len() == n + 1
    &&& new.layers[n as int] == conns
    &&& forall|i: int| 0 <= i < n ==> #[trigger] new.layers[i].len() == old.layers[i].len()
    &&& forall|i: int, l: int|
        0 <= i < n && 0 <= l < old.layers[i].len() ==> {
            let o = old.layers[i][l];
            #[trigger] new.layers[i][l] == if l < conns.len() && conns[l].contains(i as usize) {
                o.push(n as usize)
            } else {
                o
            }
        }
    &&& new.slots == old.slots.insert(id, n as usize)
    &&& new.entry == match old.entry {
        None => Some(n as usize),
        Some(e) => if conns.len() > 1 && conns.len() > old.layers[e as int].len() {
            Some(n as usize)
        } else {
            Some(e)
        },
    }
}

/// `pair` can be called on any two slots and gives one result for each.
pub open spec fn pair_fn<F: Fn(usize, usize) -> u32>(pair: F) -> bool {
    &&& forall|a: usize, b: usize| pair.requires((a, b))
    &&& forall|a: usize, b: usize, r1: u32, r2: u32|
        pair.ensures((a, b), r1) && pair.ensures((a, b), r2) ==> r1 == r2
}

/// What `pair` gives for candidate `c` against `s`.
pub open spec fn pair_score<F: Fn(usize, usize) -> u32>(pair: F, c: usize, s: usize) -> u32 {
    choose|r: u32| pair.ensures((c, s), r)
}

/// The scores of every candidate against every other.
pub open spec fn score_of<F: Fn(usize, usize) -> u32>(pair: F, cands: Seq<(usize, u32)>) -> Seq<Seq<u32>> {
    Seq::new(
        cands.len(),
        |i: int| Seq::new(cands.len(), |j: int| if i == j { 0u32 } else { pair_score(pair, cands[i].0, cands[j].0) }),
    )
}

/// The seeds after a descent over the layers below `layer` and above
/// `level`: on each, the one nearest node found from the seeds, or the
/// seeds themselves when none is found.
pub open spec fn descend<E>(
    g: GraphView<E>,
    dist: Seq<u32>,
    level: int,
    exclude: Option<usize>,
    seeds: Seq<usize>,
    layer: int,
) -> Seq<usize>
    decreases layer - level,
{
    if layer <= level + 1 {
        seeds
    } else {
        let found = search_result(g, dist, seeds, layer - 1, 1, g.params.ef_construction as nat, exclude);
        descend(
            g,
            dist,
            level,
            exclude,
            if found.len() > 0 {
                found.map_values(|c: (usize, u32)| c.0)
            } else {
                seeds
            },
            layer - 1,
        )
    }
}

/// `acc` with the lists of the layers below `layer` put in, from the top:
/// on each, a search of width `ef_construction` from the seeds and a
/// neighbour selection, whose picks seed the next layer down.
pub open spec fn link_layers<E, F: Fn(usize, usize) -> u32>(
    g: GraphView<E>,
    dist: Seq<u32>,
    exclude: Option<usize>,
    pair: F,
    seeds: Seq<usize>,
    layer: int,
    acc: Seq<Seq<usize>>,
) -> Seq<Seq<usize>>
    decreases layer,
{
    if layer <= 0 {
        acc
    } else {
        let l = layer - 1;
        let m = if l == 0 {
            g.params.m_max
        } else {
            g.params.m
        };
        let ef = g.params.ef_construction as nat;
        let cands = search_result(g, dist, seeds, l, ef, ef, exclude);
        let nb = selection(cands, score_of(pair, cands), m as nat);
        link_layers(g, dist, exclude, pair, nb, l, acc.update(l, nb))
    }
}

/// The neighbour lists, layer 0 first, of a new node of the given level:
/// none without a start, else a descent from `start` followed by a search
/// and selection on each layer of the node.
pub open spec fn connections<E, F: Fn(usize, usize) -> u32>(
    g: GraphView<E>,
    dist: Seq<u32>,
    level: nat,
    exclude: Option<usize>,
    start: Option<usize>,
    pair: F,
) -> Seq<Seq<usize>> {
    let empty = Seq::new(level + 1, |l: int| Seq::<usize>::empty());
    match start {
        None => empty,
        Some(e) => link_layers(
            g,
            dist,
            exclude,
            pair,
            descend(g, dist, level as int, exclude, seq![e], MAX_LAYERS as int),
            level + 1 as int,
            empty,
        ),
    }
}

impl<E> HNSWIndex<E> {
    /// The scores of every candidate against every other, from `pair`.
    fn score_matrix<F: Fn(usize, usize) -> u32>(cands: &Vec<(usize, u32)>, pair: &F) -> (r: Vec<Vec<u32>>)
        requires
            pair_fn(*pair),
        ensures
            r@.len() == cands@.len(),
            forall|i: int| 0 <= i < cands@.len() ==> #[trigger] r@[i]@.len() == cands@.len(),
            r@.map_values(|v: Vec<u32>| v@) == score_of(*pair, cands@),
    {
        let n = cands.len();
        let mut r: Vec<Vec<u32>> = Vec::new();
        let mut i: usize = 0;
        while i < n
            invariant
                n == cands@.len(),
                i <= n,
                r@.len() == i,
                forall|x: int| 0 <= x < i ==> #[trigger] r@[x]@.len() == n,
                forall|x: int| 0 <= x < i ==> #[trigger] r@[x]@ == score_of(*pair, cands@)[x],
                pair_fn(*pair),
            decreases n - i,
        {
            let mut row: Vec<u32> = Vec::new();
            let mut j: usize = 0;
            while j < n
                invariant
                    n == cands@.len(),
                    i < n,
                    j <= n,
                    row@.len() == j,
                    forall|y: int| 0 <= y < j ==> #[trigger] row@[y] == score_of(*pair, cands@)[i as int][y],
                    pair_fn(*pair),
                decreases n - j,
            {
                if i == j {
                    row.push(0);
                } else {
                    let v = pair(cands[i].0, cands[j].0);
                    proof {
                        assert(pair.ensures((cands@[i as int].0, cands@[j as int].0), v));
                        assert(v == pair_score(*pair, cands@[i as int].0, cands@[j as int].0));
                    }
                    row.push(v);
                }
                j += 1;
            }
            assert(row@ =~= score_of(*pair, cands@)[i as int]);
            r.push(row);
            i += 1;
        }
        assert(r@.map_values(|v: Vec<u32>| v@) =~= score_of(*pair, cands@));
        r
    }

    /// The neighbour lists, layer 0 first, that a node of the given level
    /// and whose distance to slot `i` has key `dist[i]` gets in this graph:
    /// a descent from the entry point with one nearest node per layer above
    /// `level` (a layer that yields none keeps the seeds), then on each
    /// layer from `level` down to 0 a search of width `ef_construction` and
    /// a neighbour selection. The descent starts from `start` (no lists are
    /// computed without one). `pair(c, s)` scores candidate `c` against an
    /// already picked `s`, the same way on every call. Slot `exclude` is
    /// never reached.
    pub fn compute_connections<F: Fn(usize, usize) -> u32>(
        &self,
        dist: &Vec<u32>,
        level: usize,
        exclude: Option<usize>,
        start: Option<usize>,
        pair: &F,
    ) -> (r: Vec<Vec<usize>>)
        requires
            self.wf(),
            dist@.len() == self@.len(),
            forall|s: usize| start == Some(s) ==> s < self@.len(),
            level < usize::MAX,
            pair_fn(*pair),
        ensures
            fit_links(self@, level as nat, exclude, r@.map_values(|v: Vec<usize>| v@)),
            r@.map_values(|v: Vec<usize>| v@) == connections(self@, dist@, level as nat, exclude, start, *pair),
    {
        let ghost g = self@;
        let mut r: Vec<Vec<usize>> = Vec::new();
        let mut i: usize = 0;
        while i <= level
            invariant
                i <= level + 1,
                level < usize::MAX,
                r@.len() == i,
                forall|x: int| 0 <= x < i ==> #[trigger] r@[x]@.len() == 0,
            decreases level + 1 - i,
        {
            r.push(Vec::new());
            i += 1;
        }
        let ghost empty = Seq::new((level + 1) as nat, |l: int| Seq::<usize>::empty());
        assert forall|x: int| 0 <= x < r@.len() implies #[trigger] r@[x]@ == Seq::<usize>::empty() by {
            assert(r@[x]@ =~= Seq::<usize>::empty());
        }
        assert(r@.map_values(|v: Vec<usize>| v@) =~= empty);
        let ep = match start {
            Some(e) => e,
            None => {
                assert(fit_links(g, level as nat, exclude, r@.map_values(|v: Vec<usize>| v@)));
                return r;
            },
        };
        let mut seeds: Vec<usize> = Vec::new();
        seeds.push(ep);
        let mut layer: usize = MAX_LAYERS;
        assert(seeds@ =~= seq![ep]);
        while layer > level + 1
            invariant
                self.wf(),
                g == self@,
                dist@.len() == g.len(),
                level < usize::MAX,
                forall|a: int| 0 <= a < seeds@.len() ==> #[trigger] seeds@[a] < g.len(),
                descend(g, dist@, level as int, exclude, seeds@, layer as int) == descend(
                    g,
                    dist@,
                    level as int,
                    exclude,
                    seq![ep],
                    MAX_LAYERS as int,
                ),
            decreases layer,
        {
            layer -= 1;
            let found = self.search_layer(dist, &seeds, layer, 1, exclude);
            if found.len() > 0 {
                seeds = slots_of(&found);
            }
        }
        let mut layer: usize = level + 1;
        while layer > 0
            invariant
                self.wf(),
                g == self@,
                dist@.len() == g.len(),
                layer <= level + 1,
                level < usize::MAX,
                pair_fn(*pair),
                forall|a: int| 0 <= a < seeds@.len() ==> #[trigger] seeds@[a] < g.len(),
                r@.len() == level + 1,
                forall|l: int| 0 <= l < r@.len() ==> (#[trigger] r@[l]@).no_duplicates(),
                link_layers(g, dist@, exclude, *pair, seeds@, layer as int, r@.map_values(|v: Vec<usize>| v@))
                    == connections(g, dist@, level as nat, exclude, start, *pair),
                forall|l: int, p: int|
                    0 <= l < r@.len() && 0 <= p < r@[l]@.len() ==> {
                        let j = #[trigger] r@[l]@[p];
                        &&& j < g.len()
                        &&& g.in_layer(j as int, l)
                        &&& exclude != Some(j)
                    },
            decreases layer,
        {
            layer -= 1;
            let m_layer = if layer == 0 {
                self.params.m_max
            } else {
                self.params.m
            };
            let cands = self.search_layer(dist, &seeds, layer, self.params.ef_construction, exclude);
            let score = if cands.len() > m_layer {
                Self::score_matrix(&cands, pair)
            } else {
                let mut z: Vec<Vec<u32>> = Vec::new();
                let mut q: usize = 0;
                while q < cands.len()
                    invariant
                        q <= cands@.len(),
                        z@.len() == q,
                        forall|x: int| 0 <= x < q ==> #[trigger] z@[x]@.len() == cands@.len(),
                    decreases cands@.len() - q,
                {
                    let mut row: Vec<u32> = Vec::new();
                    let mut t: usize = 0;
                    while t < cands.len()
                        invariant
                            t <= cands@.len(),
                            row@.len() == t,
                        decreases cands@.len() - t,
                    {
                        row.push(0);
                        t += 1;
                    }
                    z.push(row);
                    q += 1;
                }
                z
            };
            let nb = self.select_neighbors(&cands, &score, m_layer);
            proof {
                assert(cands@.len() == cands.len());
                assert(nb@ == selection(cands@, score_of(*pair, cands@), m_layer as nat));
                lemma_selection_from(g, dist@, layer as int, self.params.ef_construction as nat, exclude, cands@, score@.map_values(|v: Vec<u32>| v@), m_layer as nat);
            }
            let mut copy: Vec<usize> = Vec::new();
            let mut q: usize = 0;
            while q < nb.len()
                invariant
                    q <= nb@.len(),
                    copy@ == nb@.subrange(0, q as int),
                decreases nb@.len() - q,
            {
                copy.push(nb[q]);
                q += 1;
                assert(copy@ =~= nb@.subrange(0, q as int));
            }
            assert(nb@.subrange(0, q as int) =~= nb@);
            let ghost acc = r@.map_values(|v: Vec<usize>| v@);
            r.set(layer, copy);
            proof {
                assert(r@.map_values(|v: Vec<usize>| v@) =~= acc.update(layer as int, nb@));
            }
            seeds = nb;
        }
        assert(fit_links(g, level as nat, exclude, r@.map_values(|v: Vec<usize>| v@)));
        r
    }
}

/// Slot `i` is among the first `p` neighbours of layer `l`, or among all
/// neighbours of a layer below `l`.
pub open spec fn linked_before(conns: Seq<Seq<usize>>, l: int, p: int, i: int, l2: int) -> bool {
    ||| (0 <= l2 < l && l2 < conns.len() && conns[l2].contains(i as usize))
    ||| (l2 == l && l < conns.len() && conns[l].subrange(0, p).contains(i as usize))
}

/// Each old list of `cur` is the list of `old`, with `n` appended once
/// exactly where `grown` says.
pub open spec fn grown_by<E>(old: GraphView<E>, cur: Seq<Seq<Seq<usize>>>, n: usize, grown: spec_fn(int, int) -> bool) -> bool {
    &&& cur.len() == old.len()
    &&& forall|i: int| 0 <= i < old.len() ==> #[trigger] cur[i].len() == old.layers[i].len()
    &&& forall|i: int, l: int|
        0 <= i < old.len() && 0 <= l < old.layers[i].len() ==> {
            let o = old.layers[i][l];
            let w = #[trigger] cur[i][l];
            &&& w.len() >= o.len()
            &&& w.len() <= o.len() + 1
            &&& w.subrange(0, o.len() as int) == o
            &&& forall|q: int| o.len() <= q < w.len() ==> w[q] == n
            &&& (w.len() > o.len() <==> grown(i, l))
        }
}

impl<E> HNSWIndex<E> {
    /// Inserts a node of the given level whose distance to slot `i` has key
    /// `dist[i]`: computes its neighbour lists from the entry point, links
    /// it both ways and makes it the entry point if it reaches above the
    /// current one (or the graph was empty). `pair` scores candidates as in
    /// `compute_connections`.
    pub fn insert<F: Fn(usize, usize) -> u32>(
        &mut self,
        id: String,
        item: E,
        level: usize,
        dist: &Vec<u32>,
        pair: &F,
    ) -> (r: Result<(), GraphError>)
        requires
            old(self).wf(),
            dist@.len() == old(self)@.len(),
            old(self)@.len() < usize::MAX,
            level < usize::MAX,
            pair_fn(*pair),
        ensures
            final(self).wf(),
            final(self)@.well_formed(),
            final(self)@.params == old(self)@.params,
            old(self)@.slots.contains_key(id@) ==> r == Err::<(), GraphError>(GraphError::DuplicateId)
                && final(self)@ == old(self)@,
            !old(self)@.slots.contains_key(id@) ==> r is Ok
                && final(self)@.layers[old(self)@.len() as int] == connections(
                    old(self)@,
                    dist@,
                    level as nat,
                    None,
                    old(self)@.entry,
                    *pair,
                )
                && fit_links(old(self)@, level as nat, None, final(self)@.layers[old(self)@.len() as int])
                && insertion_of(old(self)@, id@, item, final(self)@.layers[old(self)@.len() as int], final(self)@),
            old(self)@.symmetric() ==> final(self)@.symmetric(),
    {
        if self.slots.contains_key(id.as_str()) {
            return Err(GraphError::DuplicateId);
        }
        let conns = self.compute_connections(dist, level, None, self.entry, pair);
        let ghost cv = conns@.map_values(|v: Vec<usize>| v@);
        let ghost g = self@;
        let n = self.ids.len();
        proof {
            assert forall|i: int, l2: int| 0 <= i < n && 0 <= l2 < g.layers[i].len() implies
                (#[trigger] g.layers[i][l2]).subrange(0, g.layers[i][l2].len() as int) == g.layers[i][l2] by {
                assert(g.layers[i][l2].subrange(0, g.layers[i][l2].len() as int) =~= g.layers[i][l2]);
            }
            assert(cv[0].subrange(0, 0) =~= Seq::<usize>::empty());
        }
        let mut l: usize = 0;
        while l < conns.len()
            invariant
                g.well_formed(),
                self.ids@.len() == n,
                self.items@.len() == n,
                self.links@.len() == n,
                n == g.len(),
                self.ids@.map_values(|s: String| s@) == g.ids,
                self.items@ == g.items,
                self.slots@ == g.slots,
                self.entry == g.entry,
                self.params == g.params,
                cv == conns@.map_values(|v: Vec<usize>| v@),
                fit_links(g, level as nat, None, cv),
                l <= conns@.len(),
                grown_by(g, self@.layers, n, |i: int, l2: int| linked_before(cv, l as int, 0, i, l2)),
            decreases conns@.len() - l,
        {
            let mut p: usize = 0;
            while p < conns[l].len()
                invariant
                    g.well_formed(),
                    self.ids@.len() == n,
                    self.items@.len() == n,
                    self.links@.len() == n,
                    n == g.len(),
                    self.ids@.map_values(|s: String| s@) == g.ids,
                    self.items@ == g.items,
                    self.slots@ == g.slots,
                    self.entry == g.entry,
                    self.params == g.params,
                    cv == conns@.map_values(|v: Vec<usize>| v@),
                    fit_links(g, level as nat, None, cv),
                    l < conns@.len(),
                    p <= conns@[l as int]@.len(),
                    grown_by(g, self@.layers, n, |i: int, l2: int| linked_before(cv, l as int, p as int, i, l2)),
                decreases conns@[l as int]@.len() - p,
            {
                let j = conns[l][p];
                let ghost before = self@.layers;
                proof {
                    assert(cv[l as int][p as int] == j);
                    assert(self@.layers[j as int].len() == self.links@[j as int]@.len());
                }
                self.links[j][l].push(n);
                proof {
                    assert(self@.layers =~~= before.update(
                        j as int,
                        before[j as int].update(l as int, before[j as int][l as int].push(n)),
                    ));
                    lemma_link_step(g, before, self@.layers, cv, l as int, p as int, n, level as nat);
                }
                p += 1;
            }
            proof {
                lemma_link_next_layer(g, self@.layers, cv, l as int, n);
            }
            l += 1;
        }
        let promote = match self.entry {
            None => true,
            Some(e) => {
                proof {
                    assert(self@.layers[e as int].len() == self.links@[e as int]@.len());
                    assert(self@.layers[e as int].len() == g.layers[e as int].len());
                }
                level > 0 && level >= self.links[e].len()
            },
        };
        let ghost pre_layers = self@.layers;
        let ghost id_v = id@;
        let ghost item_v = item;
        self.slots.insert(id.clone(), n);
        self.ids.push(id);
        self.items.push(item);
        self.links.push(conns);
        if promote {
            self.entry = Some(n);
        }
        proof {
            assert(self@.layers[n as int] == cv);
            assert(self@.ids =~= g.ids.push(id_v));
            assert(self@.layers.subrange(0, n as int) =~= pre_layers);
            lemma_insertion_wf(g, self@, id_v, item_v, level as nat, cv);
        }
        Ok(())
    }
}

/// Edge `(i, l, q)` comes before position `(i0, l0, q0)` in a scan of the
/// graph by node, layer and position.
pub open spec fn scanned(i0: int, l0: int, q0: int, i: int, l: int, q: int) -> bool {
    i < i0 || (i == i0 && (l < l0 || (l == l0 && q < q0)))
}

/// The `q`-th neighbour of node `i` on layer `l` does not list `i` back.
pub open spec fn one_way<E>(g: GraphView<E>, i: int, l: int, q: int) -> bool {
    !g.layers[g.layers[i][l][q] as int][l].contains(i as usize)
}

fn list_contains(v: &Vec<usize>, x: usize) -> (r: bool)
    ensures
        r == v@.contains(x),
{
    let mut i: usize = 0;
    while i < v.len()
        invariant
            i <= v@.len(),
            forall|a: int| 0 <= a < i ==> v@[a] != x,
        decreases v@.len() - i,
    {
        if v[i] == x {
            return true;
        }
        i += 1;
    }
    false
}

impl<E> HNSWIndex<E> {
    /// The edges whose reverse edge is missing, as (node, layer, neighbour),
    /// in scan order; empty exactly when every edge has its reverse.
    pub fn asymmetric_links(&self) -> (r: Vec<(usize, usize, usize)>)
        requires
            self.wf(),
        ensures
            forall|a: int| 0 <= a < r@.len() ==> {
                let (i, l, j) = #[trigger] r@[a];
                &&& i < self@.len()
                &&& l < self@.layers[i as int].len()
                &&& self@.layers[i as int][l as int].contains(j)
                &&& !self@.layers[j as int][l as int].contains(i)
            },
            r@.len() == 0 <==> self@.symmetric(),
    {
        let ghost g = self@;
        let n = self.links.len();
        let mut r: Vec<(usize, usize, usize)> = Vec::new();
        let mut i: usize = 0;
        while i < n
            invariant
                self.wf(),
                g == self@,
                n == g.len(),
                i <= n,
                forall|a: int| 0 <= a < r@.len() ==> {
                    let (i, l, j) = #[trigger] r@[a];
                    &&& i < g.len()
                    &&& l < g.layers[i as int].len()
                    &&& g.layers[i as int][l as int].contains(j)
                    &&& !g.layers[j as int][l as int].contains(i)
                },
                r@.len() == 0 ==> forall|x: int, l: int, q: int|
                    0 <= x < i && 0 <= l < g.layers[x].len() && 0 <= q < g.layers[x][l].len() ==> !#[trigger] one_way(g, x, l, q),
            decreases n - i,
        {
            let mut l: usize = 0;
            proof {
                assert(g.layers[i as int] == self.links@[i as int]@.map_values(|w: Vec<usize>| w@));
            }
            while l < self.links[i].len()
                invariant
                    self.wf(),
                    g == self@,
                    n == g.len(),
                    i < n,
                    l <= g.layers[i as int].len(),
                    g.layers[i as int].len() == self.links@[i as int]@.len(),
                    forall|a: int| 0 <= a < r@.len() ==> {
                        let (i, l, j) = #[trigger] r@[a];
                        &&& i < g.len()
                        &&& l < g.layers[i as int].len()
                        &&& g.layers[i as int][l as int].contains(j)
                        &&& !g.layers[j as int][l as int].contains(i)
                    },
                    r@.len() == 0 ==> forall|x: int, l2: int, q: int|
                        0 <= x < g.len() && 0 <= l2 < g.layers[x].len() && 0 <= q < g.layers[x][l2].len() && scanned(
                            i as int,
                            l as int,
                            0,
                            x,
                            l2,
                            q,
                        ) ==> !#[trigger] one_way(g, x, l2, q),
                decreases g.layers[i as int].len() - l,
            {
                let lst = &self.links[i][l];
                proof {
                    assert(lst@ == g.layers[i as int][l as int]);
                }
                let mut q: usize = 0;
                while q < lst.len()
                    invariant
                        self.wf(),
                        g == self@,
                        n == g.len(),
                        i < n,
                        l < g.layers[i as int].len(),
                        lst@ == g.layers[i as int][l as int],
                        q <= lst@.len(),
                        forall|a: int| 0 <= a < r@.len() ==> {
                            let (i, l, j) = #[trigger] r@[a];
                            &&& i < g.len()
                            &&& l < g.layers[i as int].len()
                            &&& g.layers[i as int][l as int].contains(j)
                            &&& !g.layers[j as int][l as int].contains(i)
                        },
                        r@.len() == 0 ==> forall|x: int, l2: int, q2: int|
                            0 <= x < g.len() && 0 <= l2 < g.layers[x].len() && 0 <= q2 < g.layers[x][l2].len()
                                && scanned(i as int, l as int, q as int, x, l2, q2) ==> !#[trigger] one_way(g, x, l2, q2),
                    decreases lst@.len() - q,
                {
                    let j = lst[q];
                    proof {
                        assert(g.layers[i as int][l as int][q as int] == j);
                        assert(j < n && l < g.layers[j as int].len());
                        assert(self.links@[j as int]@[l as int]@ == g.layers[j as int][l as int]);
                    }
                    if !list_contains(&self.links[j][l], i) {
                        proof {
                            assert(g.layers[i as int][l as int].contains(j));
                        }
                        r.push((i, l, j));
                    }
                    q += 1;
                }
                l += 1;
            }
            i += 1;
        }
        proof {
            if r@.len() > 0 {
                let (x, l, j) = r@[0];
                assert(!g.symmetric()) by {
                    let q = choose|q: int| 0 <= q < g.layers[x as int][l as int].len() && g.layers[x as int][l as int][q] == j;
                    assert(one_way(g, x as int, l as int, q));
                }
            } else {
                assert forall|x: int, l: int, q: int|
                    0 <= x < g.len() && 0 <= l < g.layers[x].len() && 0 <= q < g.layers[x][l].len()
                        implies g.layers[#[trigger] g.layers[x][l][q] as int][l].contains(x as usize) by {
                    assert(!one_way(g, x, l, q));
                }
            }
        }
        r
    }
}

/// Every slot that neighbour selection picks comes from the candidates.
proof fn lemma_selection_from<E>(
    g: GraphView<E>,
    dist: Seq<u32>,
    layer: int,
    k: nat,
    exclude: Option<usize>,
    cands: Seq<(usize, u32)>,
    score: Seq<Seq<u32>>,
    m: nat,
)
    requires
        layer_result(g, dist, layer, k, exclude, cands),
        dist.len() == g.len(),
        cands.len() <= usize::MAX,
    ensures
        forall|p: int|
            0 <= p < selection(cands, score, m).len() ==> {
                let j = #[trigger] selection(cands, score, m)[p];
                &&& j < g.len()
                &&& g.in_layer(j as int, layer)
                &&& exclude != Some(j)
            },
        selection(cands, score, m).no_duplicates(),
{
    let sel = selection(cands, score, m);
    if cands.len() > m {
        let rem = Seq::new((cands.len() - 1) as nat, |x: int| (x + 1) as usize);
        lemma_greedy_bound(score, rem, seq![0usize], m, cands.len());
        assert forall|x: int| 0 <= x < rem.len() implies !seq![0usize].contains(#[trigger] rem[x]) by {
            assert(rem[x] == x + 1);
            if seq![0usize].contains(rem[x]) {
                let q = choose|q: int| 0 <= q < 1 && seq![0usize][q] == rem[x];
                assert(seq![0usize][q] == 0);
            }
        }
        assert forall|a: int, b: int| 0 <= a < rem.len() && 0 <= b < rem.len() && a != b implies rem[a] != rem[b] by {
            assert(rem[a] == a + 1 && rem[b] == b + 1);
        }
        lemma_greedy_distinct(score, rem, seq![0usize], m);
        let gr = greedy(score, rem, seq![0usize], m);
        assert forall|a: int, b: int| 0 <= a < sel.len() && 0 <= b < sel.len() && a != b implies sel[a] != sel[b] by {
            assert(sel[a] == cands[gr[a] as int].0 && sel[b] == cands[gr[b] as int].0);
            assert(gr[a] != gr[b]);
        }
    } else {
        assert forall|a: int, b: int| 0 <= a < sel.len() && 0 <= b < sel.len() && a != b implies sel[a] != sel[b] by {
            assert(sel[a] == cands[a].0 && sel[b] == cands[b].0);
        }
    }
    assert forall|p: int| 0 <= p < sel.len() implies {
        let j = #[trigger] sel[p];
        &&& j < g.len()
        &&& g.in_layer(j as int, layer)
        &&& exclude != Some(j)
    } by {
        if cands.len() > m {
            let rem = Seq::new((cands.len() - 1) as nat, |x: int| (x + 1) as usize);
            let gr = greedy(score, rem, seq![0usize], m);
            assert(sel[p] == cands[gr[p] as int].0);
            assert(gr[p] < cands.len());
        } else {
            assert(sel[p] == cands[p].0);
        }
    }
}

/// Greedy selection picks no index twice when the remaining and the picked
/// indices are distinct and apart.
proof fn lemma_greedy_distinct(score: Seq<Seq<u32>>, rem: Seq<usize>, sel: Seq<usize>, m: nat)
    requires
        rem.no_duplicates(),
        sel.no_duplicates(),
        forall|x: int| 0 <= x < rem.len() ==> !sel.contains(#[trigger] rem[x]),
    ensures
        greedy(score, rem, sel, m).no_duplicates(),
    decreases rem.len(),
{
    if !(sel.len() >= m || rem.len() == 0) {
        let p = best_pos(score, rem, sel, rem.len() as int).0;
        if 0 <= p < rem.len() {
            let rem2 = rem.remove(p);
            let sel2 = sel.push(rem[p]);
            assert forall|a: int, b: int| 0 <= a < rem2.len() && 0 <= b < rem2.len() && a != b implies rem2[a] != rem2[b] by {
                let a0 = if a < p { a } else { a + 1 };
                let b0 = if b < p { b } else { b + 1 };
                assert(rem2[a] == rem[a0] && rem2[b] == rem[b0]);
            }
            assert forall|a: int, b: int| 0 <= a < sel2.len() && 0 <= b < sel2.len() && a != b implies sel2[a] != sel2[b] by {
                if a == sel.len() as int {
                    assert(!sel.contains(rem[p]));
                    assert(sel2[b] == sel[b]);
                } else if b == sel.len() as int {
                    assert(!sel.contains(rem[p]));
                    assert(sel2[a] == sel[a]);
                } else {
                    assert(sel2[a] == sel[a] && sel2[b] == sel[b]);
                }
            }
            assert forall|x: int| 0 <= x < rem2.len() implies !sel2.contains(#[trigger] rem2[x]) by {
                let x0 = if x < p { x } else { x + 1 };
                assert(rem2[x] == rem[x0]);
                assert(x0 != p);
                if sel2.contains(rem2[x]) {
                    let q = choose|q: int| 0 <= q < sel2.len() && sel2[q] == rem2[x];
                    if q < sel.len() {
                        assert(sel[q] == rem[x0]);
                    }
                }
            }
            lemma_greedy_distinct(score, rem2, sel2, m);
            assert(greedy(score, rem, sel, m) == greedy(score, rem2, sel2, m));
        }
    }
}

/// Greedy selection only moves indices below `n` when it starts from such.
proof fn lemma_greedy_bound(score: Seq<Seq<u32>>, rem: Seq<usize>, sel: Seq<usize>, m: nat, n: nat)
    requires
        forall|x: int| 0 <= x < rem.len() ==> #[trigger] rem[x] < n,
        forall|x: int| 0 <= x < sel.len() ==> #[trigger] sel[x] < n,
    ensures
        forall|x: int|
            0 <= x < greedy(score, rem, sel, m).len() ==> #[trigger] greedy(score, rem, sel, m)[x] < n,
    decreases rem.len(),
{
    if !(sel.len() >= m || rem.len() == 0) {
        let p = best_pos(score, rem, sel, rem.len() as int).0;
        if 0 <= p < rem.len() {
            let rem2 = rem.remove(p);
            let sel2 = sel.push(rem[p]);
            assert forall|x: int| 0 <= x < rem2.len() implies #[trigger] rem2[x] < n by {
                if x < p {
                    assert(rem2[x] == rem[x]);
                } else {
                    assert(rem2[x] == rem[x + 1]);
                }
            }
            assert forall|x: int| 0 <= x < sel2.len() implies #[trigger] sel2[x] < n by {
                if x < sel.len() {
                    assert(sel2[x] == sel[x]);
                }
            }
            lemma_greedy_bound(score, rem2, sel2, m, n);
            assert(greedy(score, rem, sel, m) == greedy(score, rem2, sel2, m));
        }
    }
}

proof fn lemma_link_step<E>(
    g: GraphView<E>,
    before: Seq<Seq<Seq<usize>>>,
    after: Seq<Seq<Seq<usize>>>,
    cv: Seq<Seq<usize>>,
    l: int,
    p: int,
    n: usize,
    level: nat,
)
    requires
        g.well_formed(),
        n == g.len(),
        fit_links(g, level, None, cv),
        0 <= l < cv.len(),
        0 <= p < cv[l].len(),
        grown_by(g, before, n, |i: int, l2: int| linked_before(cv, l, p, i, l2)),
        after == before.update(
            cv[l][p] as int,
            before[cv[l][p] as int].update(l, before[cv[l][p] as int][l].push(n)),
        ),
    ensures
        grown_by(g, after, n, |i: int, l2: int| linked_before(cv, l, p + 1, i, l2)),
{
    let j = cv[l][p] as int;
    assert(cv[l].subrange(0, p + 1) =~= cv[l].subrange(0, p).push(cv[l][p]));
    assert forall|i: int, l2: int|
        0 <= i < g.len() && 0 <= l2 < g.layers[i].len() implies {
            let o = g.layers[i][l2];
            let w = #[trigger] after[i][l2];
            &&& w.len() >= o.len()
            &&& w.len() <= o.len() + 1
            &&& w.subrange(0, o.len() as int) == o
            &&& forall|q: int| o.len() <= q < w.len() ==> w[q] == n
            &&& (w.len() > o.len() <==> linked_before(cv, l, p + 1, i, l2))
        } by {
        let o = g.layers[i][l2];
        let v = before[i][l2];
        if i == j && l2 == l {
            assert(!cv[l].subrange(0, p).contains(cv[l][p])) by {
                if cv[l].subrange(0, p).contains(cv[l][p]) {
                    let q = choose|q: int| 0 <= q < p && #[trigger] cv[l].subrange(0, p)[q] == cv[l][p];
                    assert(cv[l][q] == cv[l][p]);
                    assert(cv[l].no_duplicates());
                }
            }
            assert(v.len() == o.len());
            assert(after[i][l2] == v.push(n));
            assert(v.push(n).subrange(0, o.len() as int) =~= v.subrange(0, o.len() as int));
            assert(cv[l].subrange(0, p + 1)[p] == cv[l][p]);
        } else {
            assert(after[i][l2] == v);
            if l2 == l {
                if cv[l].subrange(0, p + 1).contains(i as usize) {
                    let q = choose|q: int| 0 <= q < p + 1 && #[trigger] cv[l].subrange(0, p + 1)[q] == i as usize;
                    assert(q != p);
                    assert(cv[l].subrange(0, p)[q] == i as usize);
                }
                if cv[l].subrange(0, p).contains(i as usize) {
                    let q = choose|q: int| 0 <= q < p && #[trigger] cv[l].subrange(0, p)[q] == i as usize;
                    assert(cv[l].subrange(0, p + 1)[q] == i as usize);
                }
            }
        }
    }
    assert forall|i: int| 0 <= i < g.len() implies #[trigger] after[i].len() == g.layers[i].len() by {
        assert(before[i].len() == g.layers[i].len());
    }
}

proof fn lemma_link_next_layer<E>(g: GraphView<E>, cur: Seq<Seq<Seq<usize>>>, cv: Seq<Seq<usize>>, l: int, n: usize)
    requires
        0 <= l < cv.len(),
        grown_by(g, cur, n, |i: int, l2: int| linked_before(cv, l, cv[l].len() as int, i, l2)),
    ensures
        grown_by(g, cur, n, |i: int, l2: int| linked_before(cv, l + 1, 0, i, l2)),
{
    assert(cv[l].subrange(0, cv[l].len() as int) =~= cv[l]);
    if l + 1 < cv.len() {
        assert(cv[l + 1].subrange(0, 0) =~= Seq::<usize>::empty());
    }
    assert forall|i: int, l2: int|
        0 <= i < g.len() && 0 <= l2 < g.layers[i].len() implies
            (linked_before(cv, l, cv[l].len() as int, i, l2) <==> linked_before(cv, l + 1, 0, i, l2)) by {
    }
}

/// A sequential insertion keeps the graph well formed, and keeps every
/// edge paired with its reverse.
pub proof fn lemma_insertion_wf<E>(g: GraphView<E>, new: GraphView<E>, id: Seq<char>, item: E, level: nat, cv: Seq<Seq<usize>>)
    requires
        g.well_formed(),
        g.len() < usize::MAX,
        !g.slots.contains_key(id),
        fit_links(g, level, None, cv),
        new.ids == g.ids.push(id),
        new.items == g.items.push(item),
        new.layers.len() == g.len() + 1,
        new.layers[g.len() as int] == cv,
        grown_by(g, new.layers.subrange(0, g.len() as int), g.len() as usize, |i: int, l2: int| linked_before(cv, cv.len() as int, 0, i, l2)),
        new.slots == g.slots.insert(id, g.len() as usize),
        new.entry == match g.entry {
            None => Some(g.len() as usize),
            Some(e) => if cv.len() > 1 && cv.len() > g.layers[e as int].len() {
                Some(g.len() as usize)
            } else {
                Some(e)
            },
        },
    ensures
        insertion_of(g, id, item, cv, new),
        new.well_formed(),
        g.symmetric() ==> new.symmetric(),
{
    let n = g.len() as int;
    let pre = new.layers.subrange(0, n);
    assert forall|i: int| 0 <= i < n implies #[trigger] new.layers[i] == pre[i] by {}
    assert(!g.ids.contains(id)) by {
        if g.ids.contains(id) {
            let i = choose|i: int| 0 <= i < n && g.ids[i] == id;
            assert(g.slots.contains_key(g.ids[i]));
        }
    }
    assert forall|i: int, l: int| 0 <= i < n && 0 <= l < g.layers[i].len() implies
        (#[trigger] new.layers[i][l]).len() > g.layers[i][l].len() <==> l < cv.len() && cv[l].contains(i as usize) by {
        assert(pre[i][l] == new.layers[i][l]);
    }
    assert(insertion_of(g, id, item, cv, new)) by {
        assert forall|i: int, l: int| 0 <= i < n && 0 <= l < g.layers[i].len() implies {
            let o = g.layers[i][l];
            #[trigger] new.layers[i][l] == if l < cv.len() && cv[l].contains(i as usize) {
                o.push(n as usize)
            } else {
                o
            }
        } by {
            let o = g.layers[i][l];
            let w = new.layers[i][l];
            assert(pre[i][l] == w);
            assert(w.subrange(0, o.len() as int) == o);
            if w.len() > o.len() {
                assert(w[o.len() as int] == n);
                assert(w =~= o.push(n as usize));
            } else {
                assert(w =~= w.subrange(0, o.len() as int));
            }
        }
        assert forall|i: int| 0 <= i < n implies #[trigger] new.layers[i].len() == g.layers[i].len() by {
            assert(pre[i].len() == g.layers[i].len());
        }
    }
    assert forall|i: int| 0 <= i < new.len() implies #[trigger] new.layers[i].len() >= 1 by {
        if i < n {
            assert(pre[i].len() == g.layers[i].len());
        }
    }
    assert(new.ids_unique()) by {
        assert forall|i: int, j: int| 0 <= i < new.len() && 0 <= j < new.len() && i != j implies new.ids[i] != new.ids[j] by {
            if i == n {
                assert(g.ids[j] == new.ids[j]);
            } else if j == n {
                assert(g.ids[i] == new.ids[i]);
            } else {
                assert(g.ids[i] == new.ids[i] && g.ids[j] == new.ids[j]);
            }
        }
    }
    assert(new.slots_match()) by {
        assert forall|i: int| 0 <= i < new.len() implies #[trigger] new.slots.contains_key(new.ids[i])
            && new.slots[new.ids[i]] == i by {
            if i < n {
                assert(new.ids[i] == g.ids[i]);
                assert(g.slots.contains_key(g.ids[i]));
                assert(g.ids[i] != id);
            }
        }
        assert forall|k: Seq<char>| #[trigger] new.slots.contains_key(k) implies new.slots[k] < new.len()
            && new.ids[new.slots[k] as int] == k by {
            if k != id {
                assert(g.slots.contains_key(k));
            }
        }
    }
    assert(new.links_valid()) by {
        assert forall|i: int, l: int, q: int|
            0 <= i < new.len() && 0 <= l < new.layers[i].len() && 0 <= q < new.layers[i][l].len() implies {
                let j = #[trigger] new.layers[i][l][q];
                &&& j < new.len()
                &&& j != i
                &&& l < new.layers[j as int].len()
            } by {
            if i == n {
                let j = cv[l][q];
                assert(j < g.len() && g.in_layer(j as int, l));
                assert(new.layers[j as int].len() == g.layers[j as int].len());
            } else {
                let o = g.layers[i][l];
                let w = new.layers[i][l];
                assert(pre[i][l] == w);
                if q < o.len() {
                    assert(w[q] == w.subrange(0, o.len() as int)[q]);
                    assert(w[q] == o[q]);
                    let j = o[q];
                    assert(new.layers[j as int].len() == g.layers[j as int].len());
                } else {
                    assert(w[q] == n);
                }
            }
        }
    }
    assert(new.entry_valid()) by {
        if let Some(e) = g.entry {
            assert forall|i: int| 0 <= i < new.len() implies #[trigger] new.layers[i].len() <= new.layers[new.entry.unwrap() as int].len() by {
                if i < n {
                    assert(g.layers[i].len() <= g.layers[e as int].len());
                }
            }
        }
    }
    if g.symmetric() {
        assert forall|i: int, l: int, q: int|
            0 <= i < new.len() && 0 <= l < new.layers[i].len() && 0 <= q < new.layers[i][l].len() implies new.layers[
                #[trigger] new.layers[i][l][q] as int][l].contains(i as usize) by {
            if i == n {
                let j = cv[l][q] as int;
                assert(cv[l].contains(j as usize));
                let o = g.layers[j][l];
                let w = new.layers[j][l];
                assert(w.len() > o.len());
                assert(w[o.len() as int] == n);
            } else {
                let o = g.layers[i][l];
                let w = new.layers[i][l];
                if q < o.len() {
                    assert(w[q] == w.subrange(0, o.len() as int)[q]);
                    let j = o[q] as int;
                    assert(g.layers[j][l].contains(i as usize));
                    let k = choose|k: int| 0 <= k < g.layers[j][l].len() && #[trigger] g.layers[j][l][k] == i as usize;
                    let wj = new.layers[j][l];
                    assert(wj.subrange(0, g.layers[j][l].len() as int)[k] == wj[k]);
                } else {
                    assert(w[q] == n);
                    assert(cv[l].contains(i as usize));
                }
            }
        }
    }
}

} // verus!
