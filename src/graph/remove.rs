use vstd::prelude::*;
use super::{GraphView, HNSWIndex, GraphError, removal_of, relink, shift, origin, first_highest};

verus! {

/// What removal does to one neighbour list, computed.
fn relink_list(lst: &Vec<usize>, s: usize) -> (r: Vec<usize>)
    ensures
        r@ == relink(lst@, s),
{
    let mut r: Vec<usize> = Vec::new();
    let mut i: usize = 0;
    assert(lst@.subrange(0, 0) =~= Seq::<usize>::empty());
    while i < lst.len()
        invariant
            i <= lst@.len(),
            r@ == relink(lst@.subrange(0, i as int), s),
        decreases lst@.len() - i,
    {
        let x = lst[i];
        assert(lst@.subrange(0, i as int + 1).drop_last() =~= lst@.subrange(0, i as int));
        if x != s {
            if x > s {
                r.push(x - 1);
            } else {
                r.push(x);
            }
        }
        i += 1;
    }
    assert(lst@.subrange(0, i as int) =~= lst@);
    r
}

impl<E> HNSWIndex<E> {
    /// Removes the node with id `id` and hands back its item: later slots
    /// move down by one in the id map and in every neighbour list, edges to
    /// the node go, and if it was the entry point the first node of the
    /// highest level takes its place.
    pub fn remove(&mut self, id: &str) -> (r: Result<E, GraphError>)
        requires
            old(self).wf(),
        ensures
            final(self).wf(),
            final(self)@.well_formed(),
            final(self)@.params == old(self)@.params,
            !old(self)@.slots.contains_key(id@) ==> r == Err::<E, GraphError>(GraphError::NotFound)
                && final(self)@ == old(self)@,
            old(self)@.slots.contains_key(id@) ==> r == Ok::<E, GraphError>(old(self)@.items[old(self)@.slots[id@] as int])
                && removal_of(old(self)@, old(self)@.slots[id@] as int, final(self)@)
                && !final(self)@.slots.contains_key(id@),
            old(self)@.symmetric() ==> final(self)@.symmetric(),
    {
        let s = match self.slots.get(id) {
            Some(s) => *s,
            None => {
                return Err(GraphError::NotFound);
            },
        };
        let ghost g = self@;
        proof {
            assert(g.slots.contains_key(id@));
            assert(g.ids[s as int] == id@);
        }
        let big_n = self.ids.len();
        self.slots.remove(id);
        let _ = self.ids.remove(s);
        let item = self.items.remove(s);
        let _ = self.links.remove(s);
        let n = self.ids.len();
        proof {
            assert(self@.ids =~= g.ids.remove(s as int));
            assert forall|x: int, l: int| 0 <= x < n && 0 <= l < g.layers[origin(x, s as int)].len()
                implies #[trigger] self.links@[x]@[l]@ == g.layers[origin(x, s as int)][l] by {
                assert(self.links@[x] == old(self).links@[origin(x, s as int)]);
                assert(g.layers[origin(x, s as int)] == old(self).links@[origin(x, s as int)]@.map_values(|w: Vec<usize>| w@));
            }
            assert forall|x: int| 0 <= x < n implies #[trigger] self.links@[x]@.len() == g.layers[origin(x, s as int)].len() by {
                assert(self.links@[x] == old(self).links@[origin(x, s as int)]);
            }
        }
        let ghost lk = self.links@;
        let ghost itv = self.items@;
        let mut i: usize = s;
        while i < n
            invariant
                self.links@ == lk,
                self.items@ == itv,
                self.entry == g.entry,
                self.params == g.params,
                n == big_n - 1,
                big_n == g.len(),
                s < big_n,
                s <= i <= n,
                g.well_formed(),
                self.ids@.len() == n,
                self@.ids == g.ids.remove(s as int),
                forall|k: Seq<char>| #[trigger] self.slots@.contains_key(k) <==> g.slots.contains_key(k) && k != g.ids[s as int],
                forall|k: Seq<char>| #[trigger] self.slots@.contains_key(k) ==> self.slots@[k] == if g.slots[k] > s && g.slots[k] <= i {
                    (g.slots[k] - 1) as usize
                } else {
                    g.slots[k]
                },
            decreases n - i,
        {
            let key = self.ids[i].clone();
            proof {
                assert(self@.ids[i as int] == self.ids@[i as int]@);
                assert(key@ == g.ids[i as int + 1]);
                assert(g.slots.contains_key(g.ids[i as int + 1]));
                assert(g.slots[key@] == i + 1);
            }
            self.slots.insert(key, i);
            proof {
                assert forall|k: Seq<char>| #[trigger] self.slots@.contains_key(k) && k != key@ implies g.slots[k] != i + 1 by {
                    assert(g.ids[g.slots[k] as int] == k);
                }
            }
            i += 1;
        }
        let ghost sl = self.slots@;
        let ghost idv = self.ids@;
        let mut i: usize = 0;
        while i < n
            invariant
                self.slots@ == sl,
                self.ids@ == idv,
                self.items@ == itv,
                self.entry == g.entry,
                self.params == g.params,
                n == big_n - 1,
                big_n == g.len(),
                s < big_n,
                i <= n,
                g.well_formed(),
                self.links@.len() == n,
                forall|x: int| 0 <= x < n ==> #[trigger] self.links@[x]@.len() == g.layers[origin(x, s as int)].len(),
                forall|x: int, l: int| 0 <= x < i && 0 <= l < g.layers[origin(x, s as int)].len()
                    ==> #[trigger] self.links@[x]@[l]@ == relink(g.layers[origin(x, s as int)][l], s),
                forall|x: int, l: int| i <= x < n && 0 <= l < g.layers[origin(x, s as int)].len()
                    ==> #[trigger] self.links@[x]@[l]@ == g.layers[origin(x, s as int)][l],
            decreases n - i,
        {
            let mut l: usize = 0;
            while l < self.links[i].len()
                invariant
                    self.slots@ == sl,
                    self.ids@ == idv,
                    self.items@ == itv,
                    self.entry == g.entry,
                    self.params == g.params,
                    n == big_n - 1,
                    big_n == g.len(),
                    s < big_n,
                    i < n,
                    g.well_formed(),
                    self.links@.len() == n,
                    forall|x: int| 0 <= x < n ==> #[trigger] self.links@[x]@.len() == g.layers[origin(x, s as int)].len(),
                    forall|x: int, l2: int| 0 <= x < i && 0 <= l2 < g.layers[origin(x, s as int)].len()
                        ==> #[trigger] self.links@[x]@[l2]@ == relink(g.layers[origin(x, s as int)][l2], s),
                    forall|x: int, l2: int| i < x < n && 0 <= l2 < g.layers[origin(x, s as int)].len()
                        ==> #[trigger] self.links@[x]@[l2]@ == g.layers[origin(x, s as int)][l2],
                    forall|l2: int| 0 <= l2 < l ==> #[trigger] self.links@[i as int]@[l2]@ == relink(g.layers[origin(i as int, s as int)][l2], s),
                    forall|l2: int| l <= l2 < g.layers[origin(i as int, s as int)].len() ==> #[trigger] self.links@[i as int]@[l2]@ == g.layers[origin(i as int, s as int)][l2],
                decreases self.links@[i as int]@.len() - l,
            {
                let nl = relink_list(&self.links[i][l], s);
                self.links[i][l] = nl;
                l += 1;
            }
            i += 1;
        }
        if self.entry == Some(s) {
            if n == 0 {
                self.entry = None;
            } else {
                let mut best: usize = 0;
                let mut x: usize = 1;
                while x < n
                    invariant
                        1 <= x <= n,
                        self.links@.len() == n,
                        best == first_highest(self.links@.map_values(|v: Vec<Vec<usize>>| v@.map_values(|w: Vec<usize>| w@)), x as int),
                        best < x,
                    decreases n - x,
                {
                    if self.links[x].len() > self.links[best].len() {
                        best = x;
                    }
                    x += 1;
                }
                self.entry = Some(best);
            }
        } else if let Some(e) = self.entry {
            if e > s {
                self.entry = Some(e - 1);
            }
        }
        proof {
            assert(self@.ids == g.ids.remove(s as int));
            assert(self@.items =~= g.items.remove(s as int));
            assert forall|x: int, l: int| 0 <= x < n && 0 <= l < self@.layers[x].len() implies #[trigger] self@.layers[x][l] == relink(
                g.layers[origin(x, s as int)][l],
                s,
            ) by {
                assert(self@.layers[x][l] == self.links@[x]@[l]@);
            }
            assert forall|x: int| 0 <= x < n implies #[trigger] self@.layers[x].len() == g.layers[origin(x, s as int)].len() by {}
            assert forall|k: Seq<char>| #[trigger] self@.slots.contains_key(k) implies self@.slots[k] == shift(g.slots[k], s) by {
                assert(g.ids[g.slots[k] as int] == k);
            }
            assert(removal_of(g, s as int, self@));
            lemma_removal_wf(g, s as int, self@);
        }
        Ok(item)
    }
}

/// `states` goes from its first to its last view by removing the ids of
/// `ids` one after another, each stored when its turn comes.
pub open spec fn removal_chain<E>(states: Seq<GraphView<E>>, ids: Seq<Seq<char>>) -> bool {
    &&& states.len() == ids.len() + 1
    &&& forall|t: int|
        0 <= t < ids.len() ==> (#[trigger] states[t]).slots.contains_key(ids[t]) && removal_of(
            states[t],
            states[t].slots[ids[t]] as int,
            states[t + 1],
        )
}

/// `new` is `old` after removing the ids of `ids` one after another.
pub open spec fn removes_in_turn<E>(old: GraphView<E>, ids: Seq<Seq<char>>, new: GraphView<E>) -> bool {
    exists|states: Seq<GraphView<E>>| #[trigger] removal_chain(states, ids) && states[0] == old && states.last() == new
}

/// The item stored under id `k`.
pub open spec fn item_of<E>(v: GraphView<E>, k: Seq<char>) -> E {
    v.items[v.slots[k] as int]
}

/// Removal keeps the item of every other id.
proof fn lemma_removal_keeps_items<E>(old: GraphView<E>, s: int, new: GraphView<E>)
    requires
        old.well_formed(),
        0 <= s < old.len(),
        removal_of(old, s, new),
    ensures
        forall|k: Seq<char>| #[trigger] new.slots.contains_key(k) ==> item_of(new, k) == item_of(old, k),
{
    assert forall|k: Seq<char>| #[trigger] new.slots.contains_key(k) implies item_of(new, k) == item_of(old, k) by {
        let t = old.slots[k] as int;
        assert(old.ids[t] == k);
        assert(t != s);
        assert(new.slots[k] == shift(old.slots[k], s as usize));
        if t < s {
            assert(new.items[t] == old.items[t]);
        } else {
            assert(new.items[t - 1] == old.items[t]);
        }
    }
}

impl<E> HNSWIndex<E> {
    /// Removes the nodes with the given ids, in order, after checking that
    /// every one is stored; returns their items.
    pub fn remove_multiple(&mut self, ids: &Vec<String>) -> (r: Result<Vec<E>, GraphError>)
        requires
            old(self).wf(),
        ensures
            final(self).wf(),
            final(self)@.well_formed(),
            final(self)@.params == old(self)@.params,
            old(self)@.symmetric() ==> final(self)@.symmetric(),
            (exists|t: int| 0 <= t < ids@.len() && !old(self)@.slots.contains_key(#[trigger] ids@[t]@)) ==> r
                == Err::<Vec<E>, GraphError>(GraphError::NotFound) && final(self)@ == old(self)@,
            r is Err ==> r == Err::<Vec<E>, GraphError>(GraphError::NotFound),
            (forall|t: int| 0 <= t < ids@.len() ==> old(self)@.slots.contains_key(#[trigger] ids@[t]@)) ==> (r is Ok <==> (
            forall|a: int, b: int| 0 <= a < ids@.len() && 0 <= b < ids@.len() && a != b ==> ids@[a]@ != ids@[b]@)),
            r is Ok ==> removes_in_turn(old(self)@, ids@.map_values(|s: String| s@), final(self)@),
            (forall|a: int, b: int| 0 <= a < ids@.len() && 0 <= b < ids@.len() && a != b ==> ids@[a]@ != ids@[b]@)
                && (forall|t: int| 0 <= t < ids@.len() ==> old(self)@.slots.contains_key(#[trigger] ids@[t]@)) ==> (
            r matches Ok(items) && items@.len() == ids@.len()
                && (forall|t: int| 0 <= t < ids@.len() ==> #[trigger] items@[t] == item_of(old(self)@, ids@[t]@))
                && final(self)@.len() + ids@.len() == old(self)@.len()
                && (forall|k: Seq<char>| #[trigger] final(self)@.slots.contains_key(k) <==> old(self)@.slots.contains_key(k)
                && forall|t: int| 0 <= t < ids@.len() ==> ids@[t]@ != k)),
    {
        let mut i: usize = 0;
        while i < ids.len()
            invariant
                self.wf(),
                self@ == old(self)@,
                i <= ids@.len(),
                forall|t: int| 0 <= t < i ==> self@.slots.contains_key(#[trigger] ids@[t]@),
            decreases ids@.len() - i,
        {
            if !self.contains(ids[i].as_str()) {
                return Err(GraphError::NotFound);
            }
            i += 1;
        }
        let ghost g = self@;
        let ghost idv = ids@.map_values(|s: String| s@);
        let ghost mut states: Seq<GraphView<E>> = seq![g];
        let mut out: Vec<E> = Vec::new();
        let mut i: usize = 0;
        while i < ids.len()
            invariant
                self.wf(),
                g == old(self)@,
                idv == ids@.map_values(|s: String| s@),
                states.len() == i + 1,
                states[0] == g,
                states.last() == self@,
                forall|t: int| 0 <= t < i ==> (#[trigger] states[t]).slots.contains_key(idv[t]) && removal_of(
                    states[t],
                    states[t].slots[idv[t]] as int,
                    states[t + 1],
                ),
                forall|a: int, b: int| 0 <= a < i && 0 <= b < i && a != b ==> ids@[a]@ != ids@[b]@,
                g.well_formed(),
                g.symmetric() ==> self@.symmetric(),
                self@.params == g.params,
                i <= ids@.len(),
                out@.len() == i,
                forall|t: int| 0 <= t < ids@.len() ==> g.slots.contains_key(#[trigger] ids@[t]@),
                self@.len() + i == g.len() || exists|a: int, b: int| 0 <= a < ids@.len() && 0 <= b < ids@.len() && a != b && ids@[a]@ == ids@[b]@,
                forall|t: int| 0 <= t < i ==> #[trigger] out@[t] == item_of(g, ids@[t]@),
                forall|k: Seq<char>| #[trigger] self@.slots.contains_key(k) ==> item_of(self@, k) == item_of(g, k),
                forall|k: Seq<char>| #[trigger] self@.slots.contains_key(k) <==> g.slots.contains_key(k)
                    && forall|t: int| 0 <= t < i ==> ids@[t]@ != k,
            decreases ids@.len() - i,
        {
            let ghost before = self@;
            match self.remove(ids[i].as_str()) {
                Ok(item) => {
                    proof {
                        let s = before.slots[ids@[i as int]@] as int;
                        lemma_removal_keeps_items(before, s, self@);
                        assert(before.ids[s] == ids@[i as int]@);
                        assert forall|k: Seq<char>| #[trigger] self@.slots.contains_key(k) <==> g.slots.contains_key(k)
                            && forall|t: int| 0 <= t < i + 1 ==> ids@[t]@ != k by {
                            if g.slots.contains_key(k) && forall|t: int| 0 <= t < i + 1 ==> ids@[t]@ != k {
                                assert(ids@[i as int]@ != k);
                            }
                        }
                        assert forall|a: int, b: int| 0 <= a < i + 1 && 0 <= b < i + 1 && a != b implies ids@[a]@ != ids@[b]@ by {
                            if b == i {
                                assert(before.slots.contains_key(ids@[i as int]@));
                            } else if a == i {
                                assert(before.slots.contains_key(ids@[i as int]@));
                            }
                        }
                        assert(idv[i as int] == ids@[i as int]@);
                        let prev = states;
                        states = states.push(self@);
                        assert forall|t: int| 0 <= t < i + 1 implies (#[trigger] states[t]).slots.contains_key(idv[t])
                            && removal_of(states[t], states[t].slots[idv[t]] as int, states[t + 1]) by {
                            if t < i {
                                assert(states[t] == prev[t] && states[t + 1] == prev[t + 1]);
                            } else {
                                assert(states[t] == before);
                            }
                        }
                    }
                    out.push(item);
                },
                Err(e) => {
                    proof {
                        assert(!before.slots.contains_key(ids@[i as int]@));
                        assert(self@ == before);
                        assert(g.slots.contains_key(ids@[i as int]@));
                        let t = choose|t: int| 0 <= t < i && ids@[t]@ == ids@[i as int]@;
                        assert(t != i);
                    }
                    return Err(e);
                },
            }
            i += 1;
        }
        proof {
            assert(removal_chain(states, idv));
            assert(removes_in_turn(g, idv, self@));
        }
        Ok(out)
    }
}

proof fn lemma_relink_elems(lst: Seq<usize>, s: usize)
    ensures
        forall|q: int|
            0 <= q < relink(lst, s).len() ==> exists|p: int|
                0 <= p < lst.len() && lst[p] != s && shift(lst[p], s) == #[trigger] relink(lst, s)[q],
        forall|p: int| 0 <= p < lst.len() && lst[p] != s ==> relink(lst, s).contains(shift(#[trigger] lst[p], s)),
    decreases lst.len(),
{
    if lst.len() > 0 {
        let rest = lst.drop_last();
        lemma_relink_elems(rest, s);
        let r = relink(lst, s);
        let r0 = relink(rest, s);
        assert forall|q: int| 0 <= q < r.len() implies exists|p: int|
            0 <= p < lst.len() && lst[p] != s && shift(lst[p], s) == #[trigger] r[q] by {
            if q < r0.len() {
                assert(r[q] == r0[q]);
                let p = choose|p: int| 0 <= p < rest.len() && rest[p] != s && shift(rest[p], s) == r0[q];
                assert(lst[p] == rest[p]);
            } else {
                assert(lst.last() != s);
                assert(lst[lst.len() - 1] == lst.last());
            }
        }
        assert forall|p: int| 0 <= p < lst.len() && lst[p] != s implies r.contains(shift(#[trigger] lst[p], s)) by {
            if p < lst.len() - 1 {
                assert(rest[p] == lst[p]);
                let w = shift(lst[p], s);
                assert(r0.contains(w));
                let q = choose|q: int| 0 <= q < r0.len() && r0[q] == w;
                assert(r[q] == r0[q]);
            } else {
                assert(r[r.len() - 1] == shift(lst[p], s));
            }
        }
    }
}

proof fn lemma_first_highest(layers: Seq<Seq<Seq<usize>>>, n: int)
    requires
        1 <= n <= layers.len(),
    ensures
        0 <= first_highest(layers, n) < n,
        forall|i: int| 0 <= i < n ==> #[trigger] layers[i].len() <= layers[first_highest(layers, n)].len(),
    decreases n,
{
    if n > 1 {
        lemma_first_highest(layers, n - 1);
    }
}

/// Removing a node keeps the graph well formed, and keeps every edge paired
/// with its reverse.
pub proof fn lemma_removal_wf<E>(old: GraphView<E>, s: int, new: GraphView<E>)
    requires
        old.well_formed(),
        old.len() <= usize::MAX,
        0 <= s < old.len(),
        removal_of(old, s, new),
    ensures
        new.well_formed(),
        old.symmetric() ==> new.symmetric(),
{
    let n = new.len() as int;
    let su = s as usize;
    assert(n == old.len() - 1);
    assert forall|i: int| 0 <= i < n implies #[trigger] new.ids[i] == old.ids[origin(i, s)] && new.items[i] == old.items[
        origin(i, s)] by {}
    assert forall|i: int| 0 <= i < n implies #[trigger] new.layers[i].len() >= 1 by {
        assert(old.layers[origin(i, s)].len() >= 1);
    }
    assert(new.ids_unique());
    assert(new.slots_match()) by {
        assert forall|i: int| 0 <= i < n implies #[trigger] new.slots.contains_key(new.ids[i]) && new.slots[new.ids[i]] == i by {
            let o = origin(i, s);
            assert(old.slots.contains_key(old.ids[o]));
            assert(old.ids[o] != old.ids[s]);
            assert(old.slots[old.ids[o]] == o);
            assert(new.slots.contains_key(old.ids[o]));
        }
        assert forall|k: Seq<char>| #[trigger] new.slots.contains_key(k) implies new.slots[k] < n && new.ids[new.slots[k] as int] == k by {
            assert(old.slots.contains_key(k) && k != old.ids[s]);
            let t = old.slots[k] as int;
            assert(old.ids[t] == k);
            assert(t != s);
            assert(new.ids[shift(t as usize, su) as int] == old.ids[origin(shift(t as usize, su) as int, s)]);
        }
    }
    assert(new.links_valid()) by {
        assert forall|i: int, l: int, q: int|
            0 <= i < n && 0 <= l < new.layers[i].len() && 0 <= q < new.layers[i][l].len() implies {
                let j = #[trigger] new.layers[i][l][q];
                &&& j < n
                &&& j != i
                &&& l < new.layers[j as int].len()
            } by {
            let o = origin(i, s);
            let lst = old.layers[o][l];
            lemma_relink_elems(lst, su);
            assert(new.layers[i][l] == relink(lst, su));
            assert(relink(lst, su)[q] == new.layers[i][l][q]);
            let p = choose|p: int| 0 <= p < lst.len() && lst[p] != su && shift(lst[p], su) == new.layers[i][l][q];
            let x = lst[p];
            assert(x < old.len() && x != o && l < old.layers[x as int].len());
            assert(origin(shift(x, su) as int, s) == x);
        }
    }
    assert(new.entry_valid()) by {
        if n > 0 {
            lemma_first_highest(new.layers, n);
            match old.entry {
                Some(e) => {
                    if e as int != s {
                        assert(origin(shift(e, su) as int, s) == e);
                        assert forall|i: int| 0 <= i < n implies #[trigger] new.layers[i].len() <= new.layers[new.entry.unwrap() as int].len() by {
                            assert(old.layers[origin(i, s)].len() <= old.layers[e as int].len());
                        }
                    }
                },
                None => {},
            }
        }
    }
    if old.symmetric() {
        assert forall|i: int, l: int, q: int|
            0 <= i < n && 0 <= l < new.layers[i].len() && 0 <= q < new.layers[i][l].len() implies new.layers[
                #[trigger] new.layers[i][l][q] as int][l].contains(i as usize) by {
            let o = origin(i, s);
            let lst = old.layers[o][l];
            lemma_relink_elems(lst, su);
            assert(new.layers[i][l] == relink(lst, su));
            assert(relink(lst, su)[q] == new.layers[i][l][q]);
            let p = choose|p: int| 0 <= p < lst.len() && lst[p] != su && shift(lst[p], su) == new.layers[i][l][q];
            let x = lst[p];
            assert(old.layers[x as int][l].contains(o as usize));
            let y = shift(x, su) as int;
            assert(origin(y, s) == x);
            let lx = old.layers[x as int][l];
            let w = choose|w: int| 0 <= w < lx.len() && lx[w] == o as usize;
            assert(lx[w] != su);
            assert(shift(lx[w], su) == i);
            lemma_relink_elems(lx, su);
            assert(new.layers[y][l] == relink(lx, su));
            assert(new.layers[y][l].contains(shift(lx[w], su)));
        }
    }
}

} // verus!
