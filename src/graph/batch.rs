use vstd::prelude::*;
use vstd::hash_map::StringHashMap;
use super::{GraphView, HNSWIndex, GraphError};
use super::insert::{fit_links, insertion_of, lemma_insertion_wf, linked_before};

verus! {

/// No id occurs twice in `ids`, and none is stored in `g`.
pub open spec fn batch_fresh<E>(g: GraphView<E>, ids: Seq<Seq<char>>) -> bool {
    &&& forall|a: int, b: int| 0 <= a < ids.len() && 0 <= b < ids.len() && a != b ==> ids[a] != ids[b]
    &&& forall|a: int| 0 <= a < ids.len() ==> !g.slots.contains_key(#[trigger] ids[a])
}

/// Index `t` occurs in `order`.
pub open spec fn lists(order: Seq<usize>, t: int) -> bool {
    exists|a: int| 0 <= a < order.len() && order[a] == t
}

/// `order` lists each index below `levels.len()` once, by descending level,
/// equal levels in index order.
pub open spec fn level_ordered(levels: Seq<usize>, order: Seq<usize>) -> bool {
    &&& order.len() == levels.len()
    &&& forall|a: int| 0 <= a < order.len() ==> #[trigger] order[a] < levels.len()
    &&& forall|a: int, b: int| 0 <= a < order.len() && 0 <= b < order.len() && a != b ==> order[a] != order[b]
    &&& forall|t: int| 0 <= t < levels.len() ==> #[trigger] lists(order, t)
    &&& forall|a: int, b: int|
        0 <= a < b < order.len() ==> levels[order[a] as int] > levels[order[b] as int] || (levels[order[a] as int]
            == levels[order[b] as int] && order[a] < order[b])
}

/// The order in which a batch is stored: by descending level, equal levels
/// in input order.
pub fn level_order(levels: &Vec<usize>) -> (r: Vec<usize>)
    ensures
        level_ordered(levels@, r@),
{
    let mut r: Vec<usize> = Vec::new();
    let mut i: usize = 0;
    while i < levels.len()
        invariant
            i <= levels@.len(),
            r@.len() == i,
            forall|a: int| 0 <= a < r@.len() ==> #[trigger] r@[a] < i,
            forall|a: int, b: int| 0 <= a < r@.len() && 0 <= b < r@.len() && a != b ==> r@[a] != r@[b],
            forall|t: int| 0 <= t < i ==> #[trigger] lists(r@, t),
            forall|a: int, b: int|
                0 <= a < b < r@.len() ==> levels@[r@[a] as int] > levels@[r@[b] as int] || (levels@[r@[a] as int]
                    == levels@[r@[b] as int] && r@[a] < r@[b]),
        decreases levels@.len() - i,
    {
        let li = levels[i];
        let mut p: usize = 0;
        while p < r.len() && levels[r[p]] >= li
            invariant
                p <= r@.len(),
                forall|a: int| 0 <= a < r@.len() ==> #[trigger] r@[a] < i,
                i < levels@.len(),
                li == levels@[i as int],
                forall|a: int| 0 <= a < p ==> levels@[#[trigger] r@[a] as int] >= li,
            decreases r@.len() - p,
        {
            p += 1;
        }
        let ghost r0 = r@;
        proof {
            assert forall|a: int| p <= a < r0.len() implies levels@[#[trigger] r0[a] as int] < li by {
                if a > p {
                    assert(levels@[r0[p as int] as int] >= levels@[r0[a] as int]);
                }
            }
        }
        r.insert(p, i);
        proof {
            assert forall|a: int| 0 <= a < r@.len() implies #[trigger] r@[a] == if a < p {
                r0[a]
            } else if a == p {
                i
            } else {
                r0[a - 1]
            } by {}
            assert forall|t: int| 0 <= t < i + 1 implies #[trigger] lists(r@, t) by {
                if t == i {
                    assert(r@[p as int] == t);
                } else {
                    assert(lists(r0, t));
                    let a = choose|a: int| 0 <= a < r0.len() && r0[a] == t;
                    if a < p {
                        assert(r@[a] == t);
                    } else {
                        assert(r@[a + 1] == t);
                    }
                }
            }
        }
        i += 1;
    }
    r
}

/// The entry point after a batch whose first stored node (the one of the
/// highest level) takes slot `n` and has level `top`.
pub open spec fn batch_entry<E>(old: GraphView<E>, top: nat) -> Option<usize> {
    match old.entry {
        None => Some(old.len() as usize),
        Some(e) => if top > 0 && top + 1 > old.layers[e as int].len() {
            Some(old.len() as usize)
        } else {
            Some(e)
        },
    }
}

/// `new` is `old` with the first `p` nodes of the batch appended in
/// `order`, unlinked.
pub open spec fn preallocation_of<E>(
    old: GraphView<E>,
    bids: Seq<Seq<char>>,
    bitems: Seq<E>,
    levels: Seq<usize>,
    order: Seq<usize>,
    p: int,
    new: GraphView<E>,
) -> bool {
    &&& new.ids == old.ids + Seq::new(p as nat, |a: int| bids[order[a] as int])
    &&& new.items == old.items + Seq::new(p as nat, |a: int| bitems[order[a] as int])
    &&& new.layers == old.layers + Seq::new(p as nat, |a: int| bare_links(levels[order[a] as int] as nat))
    &&& new.entry == if p == 0 {
        old.entry
    } else {
        batch_entry(old, levels[order[0] as int] as nat)
    }
    &&& new.params == old.params
}

/// The id map after a batch: each old id keeps its slot, the batch id
/// stored `a`-th in `order` has slot `old.len() + a`, and no other id is
/// stored.
pub open spec fn batch_slots<E>(old: GraphView<E>, bids: Seq<Seq<char>>, order: Seq<usize>, new: GraphView<E>) -> bool {
    &&& forall|k: Seq<char>|
        #[trigger] old.slots.contains_key(k) ==> new.slots.contains_key(k) && new.slots[k] == old.slots[k]
    &&& forall|a: int|
        0 <= a < order.len() ==> new.slots.contains_key(#[trigger] bids[order[a] as int]) && new.slots[bids[order[a] as int]]
            == old.len() + a
    &&& forall|t: int| 0 <= t < bids.len() ==> new.slots.contains_key(#[trigger] bids[t])
    &&& forall|k: Seq<char>| #[trigger] new.slots.contains_key(k) <==> old.slots.contains_key(k) || bids.contains(k)
}

proof fn lemma_batch_slots<E>(
    g: GraphView<E>,
    bids: Seq<Seq<char>>,
    bitems: Seq<E>,
    levels: Seq<usize>,
    order: Seq<usize>,
    new: GraphView<E>,
)
    requires
        g.well_formed(),
        new.well_formed(),
        bids.len() == levels.len(),
        level_ordered(levels, order),
        preallocation_of(g, bids, bitems, levels, order, bids.len() as int, new),
    ensures
        batch_slots(g, bids, order, new),
{
    let n = g.len() as int;
    assert forall|k: Seq<char>| #[trigger] g.slots.contains_key(k) implies new.slots.contains_key(k)
        && new.slots[k] == g.slots[k] by {
        let i = g.slots[k] as int;
        assert(g.ids[i] == k);
        assert(new.ids[i] == k);
        assert(new.slots.contains_key(new.ids[i]));
    }
    assert forall|a: int| 0 <= a < order.len() implies new.slots.contains_key(#[trigger] bids[order[a] as int])
        && new.slots[bids[order[a] as int]] == n + a by {
        assert(new.ids[n + a] == bids[order[a] as int]);
        assert(new.slots.contains_key(new.ids[n + a]));
    }
    assert forall|t: int| 0 <= t < bids.len() implies new.slots.contains_key(#[trigger] bids[t]) by {
        assert(lists(order, t));
        let a = choose|a: int| 0 <= a < order.len() && order[a] == t;
        assert(new.slots.contains_key(bids[order[a] as int]));
    }
    assert forall|k: Seq<char>| #[trigger] new.slots.contains_key(k) <==> g.slots.contains_key(k) || bids.contains(k) by {
        if new.slots.contains_key(k) {
            let i = new.slots[k] as int;
            assert(new.ids[i] == k);
            if i < n {
                assert(g.ids[i] == k);
                assert(g.slots.contains_key(g.ids[i]));
            } else {
                assert(new.ids[i] == bids[order[i - n] as int]);
                assert(bids.contains(k));
            }
        }
        if bids.contains(k) {
            let t = choose|t: int| 0 <= t < bids.len() && bids[t] == k;
            assert(new.slots.contains_key(bids[t]));
        }
    }
}

/// The neighbour lists of a node of the given level before it is linked.
pub open spec fn bare_links(level: nat) -> Seq<Seq<usize>> {
    Seq::new(level + 1, |l: int| Seq::<usize>::empty())
}

impl<E> HNSWIndex<E> {
    /// Appends a node of the given level with empty neighbour lists,
    /// promoting it to entry point as a sequential insertion would.
    fn push_bare(&mut self, id: String, item: E, level: usize)
        requires
            old(self).wf(),
            !old(self)@.slots.contains_key(id@),
            old(self)@.len() < usize::MAX,
            level < usize::MAX,
        ensures
            final(self).wf(),
            final(self)@.well_formed(),
            final(self)@.params == old(self)@.params,
            insertion_of(old(self)@, id@, item, bare_links(level as nat), final(self)@),
            old(self)@.symmetric() ==> final(self)@.symmetric(),
    {
        let ghost g = self@;
        let ghost cv = bare_links(level as nat);
        let mut conns: Vec<Vec<usize>> = Vec::new();
        let mut i: usize = 0;
        while i <= level
            invariant
                i <= level + 1,
                level < usize::MAX,
                conns@.len() == i,
                forall|x: int| 0 <= x < i ==> #[trigger] conns@[x]@ == Seq::<usize>::empty(),
            decreases level + 1 - i,
        {
            conns.push(Vec::new());
            i += 1;
        }
        proof {
            assert(conns@.map_values(|v: Vec<usize>| v@) =~= cv);
        }
        let n = self.ids.len();
        let promote = match self.entry {
            None => true,
            Some(e) => {
                proof {
                    assert(self@.layers[e as int].len() == self.links@[e as int]@.len());
                }
                level > 0 && level >= self.links[e].len()
            },
        };
        let ghost id_v = id@;
        let ghost item_v = item;
        self.slots.insert(id.clone(), n);
        self.ids.push(id);
        self.items.push(item);
        self.links.push(conns);
        if promote {
            self.entry = Some(n);
        }
        proof {
            assert(self@.layers[n as int] == cv);
            assert(self@.ids =~= g.ids.push(id_v));
            assert(self@.layers.subrange(0, n as int) =~= g.layers);
            assert forall|i: int, l2: int| 0 <= i < n && 0 <= l2 < g.layers[i].len() implies
                (#[trigger] g.layers[i][l2]).subrange(0, g.layers[i][l2].len() as int) == g.layers[i][l2]
                    && !linked_before(cv, cv.len() as int, 0, i, l2) by {
                assert(g.layers[i][l2].subrange(0, g.layers[i][l2].len() as int) =~= g.layers[i][l2]);
                if 0 <= l2 < cv.len() {
                    assert(cv[l2] == Seq::<usize>::empty());
                }
            }
            lemma_insertion_wf(g, self@, id_v, item_v, level as nat, cv);
        }
    }

    /// Stores a batch of new nodes, unlinked, by descending level (equal
    /// levels in input order), and returns that order. The first stored
    /// node becomes the entry point if the graph was empty or it reaches
    /// above the current entry point. The whole batch is refused, and the
    /// graph left as it was, if an id repeats or is already stored.
    pub fn insert_batch(&mut self, batch: Vec<(String, E)>, levels: &Vec<usize>) -> (r: Result<Vec<usize>, GraphError>)
        requires
            old(self).wf(),
            levels@.len() == batch@.len(),
            old(self)@.len() + batch@.len() < usize::MAX,
            forall|t: int| 0 <= t < levels@.len() ==> #[trigger] levels@[t] < usize::MAX,
        ensures
            final(self).wf(),
            final(self)@.well_formed(),
            old(self)@.symmetric() ==> final(self)@.symmetric(),
            !batch_fresh(old(self)@, batch@.map_values(|e: (String, E)| e.0@)) ==> r == Err::<Vec<usize>, GraphError>(
                GraphError::BatchDuplicateId,
            ) && final(self)@ == old(self)@,
            batch_fresh(old(self)@, batch@.map_values(|e: (String, E)| e.0@)) ==> (r matches Ok(order) && level_ordered(
                levels@,
                order@,
            ) && preallocation_of(
                old(self)@,
                batch@.map_values(|e: (String, E)| e.0@),
                batch@.map_values(|e: (String, E)| e.1),
                levels@,
                order@,
                batch@.len() as int,
                final(self)@,
            ) && batch_slots(old(self)@, batch@.map_values(|e: (String, E)| e.0@), order@, final(self)@)),
    {
        let ghost g = self@;
        let ghost bids = batch@.map_values(|e: (String, E)| e.0@);
        let ghost bitems = batch@.map_values(|e: (String, E)| e.1);
        let bn = batch.len();
        let mut ids: Vec<String> = Vec::new();
        let mut i: usize = 0;
        while i < bn
            invariant
                bn == batch@.len(),
                i <= bn,
                ids@.len() == i,
                forall|x: int| 0 <= x < i ==> #[trigger] ids@[x]@ == batch@[x].0@,
            decreases bn - i,
        {
            ids.push(batch[i].0.clone());
            i += 1;
        }
        proof {
            assert(ids@.map_values(|s: String| s@) =~= bids);
        }
        match self.check_batch(&ids) {
            Ok(()) => {},
            Err(e) => {
                return Err(e);
            },
        }
        let order = level_order(levels);
        let ghost orig = batch@;
        let mut batch = batch;
        let mut pool: Vec<Option<(String, E)>> = Vec::new();
        while batch.len() > 0
            invariant
                bn == orig.len(),
                batch@ == orig.subrange(0, bn - pool@.len()),
                pool@.len() <= bn,
                forall|x: int| 0 <= x < pool@.len() ==> #[trigger] pool@[x] == Some(orig[bn - 1 - x]),
            decreases batch@.len(),
        {
            let e = batch.pop().unwrap();
            pool.push(Some(e));
        }
        let n0 = self.ids.len();
        let mut p: usize = 0;
        while p < bn
            invariant
                self.wf(),
                g.well_formed(),
                g.symmetric() ==> self@.symmetric(),
                n0 == g.len(),
                n0 + bn < usize::MAX,
                bn == orig.len(),
                bn == levels@.len(),
                bids == orig.map_values(|e: (String, E)| e.0@),
                bitems == orig.map_values(|e: (String, E)| e.1),
                batch_fresh(g, bids),
                level_ordered(levels@, order@),
                forall|t: int| 0 <= t < levels@.len() ==> #[trigger] levels@[t] < usize::MAX,
                p <= bn,
                pool@.len() == bn,
                forall|t: int| 0 <= t < bn && (forall|a: int| 0 <= a < p ==> order@[a] != t) ==> #[trigger] pool@[bn - 1 - t] == Some(orig[t]),
                preallocation_of(g, bids, bitems, levels@, order@, p as int, self@),
            decreases bn - p,
        {
            let t = order[p];
            proof {
                assert forall|a: int| 0 <= a < p implies order@[a] != t by {}
            }
            let it = pool[bn - 1 - t].take();
            let (id, item) = it.unwrap();
            let lv = levels[t];
            let ghost before = self@;
            proof {
                assert(id@ == bids[t as int]);
                assert(item == bitems[t as int]);
                if self@.slots.contains_key(id@) {
                    let sl = self@.slots[id@] as int;
                    assert(self@.ids[sl] == id@);
                    if sl < n0 {
                        assert(g.ids[sl] == id@);
                        assert(g.slots.contains_key(g.ids[sl]));
                    } else {
                        let a = sl - n0;
                        assert(self@.ids[sl] == bids[order@[a] as int]);
                        assert(order@[a] != t);
                    }
                }
            }
            self.push_bare(id, item, lv);
            proof {
                let q = p as int + 1;
                let cv = bare_links(lv as nat);
                assert forall|i: int| 0 <= i < before.len() implies #[trigger] self@.layers[i] == before.layers[i] by {
                    assert forall|l: int| 0 <= l < before.layers[i].len() implies #[trigger] self@.layers[i][l] == before.layers[i][l] by {
                        let o = before.layers[i][l];
                        let w = self@.layers[i][l];
                        if l < cv.len() {
                            assert(cv[l] == Seq::<usize>::empty());
                            assert(!cv[l].contains(i as usize));
                        }

                    }
                    assert(self@.layers[i] =~= before.layers[i]);
                }
                assert(self@.ids =~= g.ids + Seq::new(q as nat, |a: int| bids[order@[a] as int]));
                assert(self@.items =~= g.items + Seq::new(q as nat, |a: int| bitems[order@[a] as int]));
                assert(self@.layers =~= g.layers + Seq::new(q as nat, |a: int| bare_links(levels@[order@[a] as int] as nat)));
                if p > 0 {
                    let top = levels@[order@[0] as int];
                    assert(top >= lv);
                    match g.entry {
                        Some(e) => {
                            assert(before.layers[e as int] == g.layers[e as int]);
                        },
                        None => {},
                    }
                    assert(before.layers[n0 as int] == bare_links(top as nat));
                }
            }
            p += 1;
        }
        proof {
            lemma_batch_slots(g, bids, bitems, levels@, order@, self@);
        }
        Ok(order)
    }

    /// Sets the neighbour lists of the node at `slot`, leaving every other
    /// list as it is: the links of a batch go one way only.
    pub fn commit_links(&mut self, slot: usize, conns: Vec<Vec<usize>>)
        requires
            old(self).wf(),
            slot < old(self)@.len(),
            fit_links(old(self)@, old(self)@.level(slot as int) as nat, Some(slot), conns@.map_values(|v: Vec<usize>| v@)),
        ensures
            final(self).wf(),
            final(self)@.well_formed(),
            final(self)@ == (GraphView {
                layers: old(self)@.layers.update(slot as int, conns@.map_values(|v: Vec<usize>| v@)),
                ..old(self)@
            }),
    {
        let ghost g = self@;
        let ghost cv = conns@.map_values(|v: Vec<usize>| v@);
        self.links.set(slot, conns);
        proof {
            assert(self@.layers =~= g.layers.update(slot as int, cv));
            let new = self@;
            assert(new.layers.len() == g.len());
            assert forall|i: int| 0 <= i < new.len() implies #[trigger] new.layers[i].len() == g.layers[i].len() by {}
            assert(new.links_valid()) by {
                assert forall|i: int, l: int, q: int|
                    0 <= i < new.len() && 0 <= l < new.layers[i].len() && 0 <= q < new.layers[i][l].len() implies {
                        let j = #[trigger] new.layers[i][l][q];
                        &&& j < new.len()
                        &&& j != i
                        &&& l < new.layers[j as int].len()
                    } by {
                    if i == slot {
                        assert(new.layers[i][l][q] == cv[l][q]);
                    } else {
                        assert(new.layers[i][l][q] == g.layers[i][l][q]);
                    }
                    let j = new.layers[i][l][q];
                    assert(new.layers[j as int].len() == g.layers[j as int].len());
                }
            }
            assert(new.entry_valid()) by {
                if let Some(e) = new.entry {
                    assert forall|i: int| 0 <= i < new.len() implies #[trigger] new.layers[i].len() <= new.layers[e as int].len() by {
                        assert(g.layers[i].len() <= g.layers[e as int].len());
                    }
                }
            }
        }
    }

    /// Accepts a batch of ids when none repeats and none is stored.
    pub fn check_batch(&self, ids: &Vec<String>) -> (r: Result<(), GraphError>)
        requires
            self.wf(),
        ensures
            r is Ok <==> batch_fresh(self@, ids@.map_values(|s: String| s@)),
            r is Err ==> r == Err::<(), GraphError>(GraphError::BatchDuplicateId),
    {
        match self.batch_conflict(ids) {
            None => Ok(()),
            Some(_) => Err(GraphError::BatchDuplicateId),
        }
    }

    /// The first id of a batch that repeats an earlier one (`true`) or is
    /// already stored (`false`), with its position; `None` when there is none.
    pub fn batch_conflict(&self, ids: &Vec<String>) -> (r: Option<(usize, bool)>)
        requires
            self.wf(),
        ensures
            r is None <==> batch_fresh(self@, ids@.map_values(|s: String| s@)),
            r matches Some((t, rep)) ==> {
                let v = ids@.map_values(|s: String| s@);
                &&& t < v.len()
                &&& batch_fresh(self@, v.subrange(0, t as int))
                &&& (rep <==> v.subrange(0, t as int).contains(v[t as int]))
                &&& (rep || self@.slots.contains_key(v[t as int]))
            },
    {
        let ghost v = ids@.map_values(|s: String| s@);
        let mut seen: StringHashMap<usize> = StringHashMap::new();
        let mut i: usize = 0;
        while i < ids.len()
            invariant
                self.wf(),
                v == ids@.map_values(|s: String| s@),
                i <= ids@.len(),
                batch_fresh(self@, v.subrange(0, i as int)),
                forall|k: Seq<char>| #[trigger] seen@.contains_key(k) <==> v.subrange(0, i as int).contains(k),
            decreases ids@.len() - i,
        {
            let id = ids[i].as_str();
            proof {
                assert(v[i as int] == ids@[i as int]@);
            }
            let rep = seen.contains_key(id);
            if rep || self.slots.contains_key(id) {
                proof {
                    if seen@.contains_key(id@) {
                        let a = choose|a: int| 0 <= a < i && v.subrange(0, i as int)[a] == id@;
                        assert(v[a] == v[i as int]);
                    } else {
                        assert(!self@.slots.contains_key(v[i as int]) ==> false);
                    }
                }
                return Some((i, rep));
            }
            let ghost s0 = seen@;
            proof {
                assert(!v.subrange(0, i as int).contains(v[i as int]));
            }
            seen.insert(ids[i].clone(), i);
            proof {
                let w = v.subrange(0, i as int + 1);
                assert(w =~= v.subrange(0, i as int).push(v[i as int]));
                assert forall|a: int, b: int| 0 <= a < w.len() && 0 <= b < w.len() && a != b implies w[a] != w[b] by {
                    if a == i {
                        assert(v.subrange(0, i as int)[b] == w[b]);
                        if w[a] == w[b] {
                            assert(v.subrange(0, i as int).contains(v[i as int]));
                        }
                    } else if b == i {
                        assert(v.subrange(0, i as int)[a] == w[a]);
                        if w[a] == w[b] {
                            assert(v.subrange(0, i as int).contains(v[i as int]));
                        }
                    } else {
                        assert(v.subrange(0, i as int)[a] == w[a]);
                        assert(v.subrange(0, i as int)[b] == w[b]);
                    }
                }
                assert forall|a: int| 0 <= a < w.len() implies !self@.slots.contains_key(#[trigger] w[a]) by {
                    if a < i {
                        assert(v.subrange(0, i as int)[a] == w[a]);
                    }
                }
                assert forall|k: Seq<char>| #[trigger] seen@.contains_key(k) <==> w.contains(k) by {
                    assert(seen@.contains_key(k) <==> s0.contains_key(k) || k == v[i as int]);
                    assert(s0.contains_key(k) <==> v.subrange(0, i as int).contains(k));
                    assert(w[i as int] == v[i as int]);
                    if w.contains(k) && k != v[i as int] {
                        let a = choose|a: int| 0 <= a < w.len() && w[a] == k;
                        assert(v.subrange(0, i as int)[a] == k);
                    }
                    if v.subrange(0, i as int).contains(k) {
                        let a = choose|a: int| 0 <= a < i && v.subrange(0, i as int)[a] == k;
                        assert(w[a] == k);
                    }
                }
            }
            i += 1;
        }
        proof {
            assert(v.subrange(0, i as int) =~= v);
        }
        None
    }
}

} // verus!
