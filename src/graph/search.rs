use vstd::prelude::*;
use super::{GraphView, HNSWIndex};

verus! {

/// Keys ascend along `r`.
pub open spec fn sorted_by_key(r: Seq<(usize, u32)>) -> bool {
    forall|a: int, b: int| 0 <= a < b < r.len() ==> r[a].1 <= r[b].1
}

/// `x` comes before `y`: a lower key, or the same key and a lower slot.
pub open spec fn pair_lt(x: (usize, u32), y: (usize, u32)) -> bool {
    x.1 < y.1 || (x.1 == y.1 && x.0 < y.0)
}

/// Pairs ascend by key, and pairs of equal key by slot.
pub open spec fn sorted_by_pair(r: Seq<(usize, u32)>) -> bool {
    forall|a: int, b: int| 0 <= a < b < r.len() ==> !pair_lt(r[b], r[a])
}

/// No slot occurs twice in `r`.
pub open spec fn distinct_slots(r: Seq<(usize, u32)>) -> bool {
    forall|a: int, b: int| 0 <= a < r.len() && 0 <= b < r.len() && a != b ==> r[a].0 != r[b].0
}

/// Slot `j` occurs in `r`.
pub open spec fn holds(r: Seq<(usize, u32)>, j: usize) -> bool {
    exists|a: int| 0 <= a < r.len() && r[a].0 == j
}

/// Every slot of `r` is in range and paired with its own key.
pub open spec fn keyed_by(r: Seq<(usize, u32)>, dist: Seq<u32>) -> bool {
    forall|a: int| #![trigger r[a]] 0 <= a < r.len() ==> r[a].0 < dist.len() && r[a].1 == dist[r[a].0 as int]
}

/// `r` holds the `k` nearest slots, nearer meaning a lower key or the same
/// key and a lower slot: every slot other than `exclude` that `r` leaves
/// out is only left out when `r` is full, and comes after everything in `r`.
pub open spec fn nearest(r: Seq<(usize, u32)>, dist: Seq<u32>, k: nat, exclude: Option<usize>) -> bool {
    forall|j: usize|
        #![trigger holds(r, j)]
        j < dist.len() && exclude != Some(j) && !holds(r, j) ==> r.len() == k && forall|a: int|
            0 <= a < r.len() ==> !pair_lt((j, dist[j as int]), r[a])
}

/// What a layer search returns, whatever the seeds: at most `k` pairs of a
/// slot taking part in `layer` and its key, ascending by key and then by
/// slot, each slot once.
pub open spec fn layer_result<E>(
    g: GraphView<E>,
    dist: Seq<u32>,
    layer: int,
    k: nat,
    exclude: Option<usize>,
    r: Seq<(usize, u32)>,
) -> bool {
    &&& r.len() <= k
    &&& sorted_by_key(r)
    &&& sorted_by_pair(r)
    &&& distinct_slots(r)
    &&& keyed_by(r, dist)
    &&& forall|a: int| 0 <= a < r.len() ==> g.in_layer(#[trigger] r[a].0 as int, layer)
    &&& forall|a: int| 0 <= a < r.len() ==> exclude != Some(#[trigger] r[a].0)
}

/// A seed that a layer search starts from.
pub open spec fn usable_seed<E>(g: GraphView<E>, layer: int, exclude: Option<usize>, s: usize) -> bool {
    s < g.len() && g.in_layer(s as int, layer) && exclude != Some(s)
}

pub open spec fn count_true(s: Seq<bool>) -> nat
    decreases s.len(),
{
    if s.len() == 0 {
        0
    } else {
        count_true(s.drop_last()) + if s.last() {
            1nat
        } else {
            0nat
        }
    }
}

proof fn lemma_count_le(s: Seq<bool>)
    ensures
        count_true(s) <= s.len(),
    decreases s.len(),
{
    if s.len() > 0 {
        lemma_count_le(s.drop_last());
    }
}

proof fn lemma_count_set(s: Seq<bool>, j: int)
    requires
        0 <= j < s.len(),
        !s[j],
    ensures
        count_true(s.update(j, true)) == count_true(s) + 1,
    decreases s.len(),
{
    let t = s.update(j, true);
    if j < s.len() - 1 {
        assert(t.drop_last() =~= s.drop_last().update(j, true));
        lemma_count_set(s.drop_last(), j);
    } else {
        assert(t.drop_last() =~= s.drop_last());
    }
}

/// Where `e` goes in `list`: before the first pair that does not come
/// before it.
pub open spec fn ins_pos(list: Seq<(usize, u32)>, e: (usize, u32)) -> int
    decreases list.len(),
{
    if list.len() == 0 {
        0
    } else if pair_lt(list[0], e) {
        1 + ins_pos(list.subrange(1, list.len() as int), e)
    } else {
        0
    }
}

/// `list` with `e` put in place, cut back to `cap` pairs if it grew past.
pub open spec fn ins(list: Seq<(usize, u32)>, e: (usize, u32), cap: int) -> Seq<(usize, u32)> {
    let full = list.insert(ins_pos(list, e), e);
    if full.len() > cap {
        full.drop_last()
    } else {
        full
    }
}

/// The kept pairs, the frontier and the visited marks of a layer search.
pub struct SearchState {
    pub cands: Seq<(usize, u32)>,
    pub frontier: Seq<(usize, u32)>,
    pub visited: Seq<bool>,
}

/// One visit of slot `j`: a visited slot is passed over; otherwise it is
/// marked, and kept (and put on the frontier) if fewer than `k` are kept or
/// it comes before the last kept pair.
pub open spec fn visit_step(st: SearchState, dist: Seq<u32>, k: nat, ef: nat, j: usize) -> SearchState {
    if st.visited[j as int] {
        st
    } else {
        let e = (j, dist[j as int]);
        let v = st.visited.update(j as int, true);
        if st.cands.len() < k || pair_lt(e, st.cands.last()) {
            SearchState { cands: ins(st.cands, e, k as int), frontier: ins(st.frontier, e, ef as int), visited: v }
        } else {
            SearchState { visited: v, ..st }
        }
    }
}

/// Visits of the slots of `nb`, in order.
pub open spec fn visit_all(st: SearchState, dist: Seq<u32>, k: nat, ef: nat, nb: Seq<usize>) -> SearchState
    decreases nb.len(),
{
    if nb.len() == 0 {
        st
    } else {
        visit_step(visit_all(st, dist, k, ef, nb.drop_last()), dist, k, ef, nb.last())
    }
}

/// Visits of the slots below `upto` other than `cur`, in order.
pub open spec fn visit_range(st: SearchState, dist: Seq<u32>, k: nat, ef: nat, cur: int, upto: int) -> SearchState
    decreases upto,
{
    if upto <= 0 {
        st
    } else {
        let s = visit_range(st, dist, k, ef, cur, upto - 1);
        if upto - 1 == cur {
            s
        } else {
            visit_step(s, dist, k, ef, (upto - 1) as usize)
        }
    }
}

/// One round of a layer search: the frontier's first slot is taken off and
/// its neighbours are visited (on layer 0, every other node).
pub open spec fn expand<E>(g: GraphView<E>, dist: Seq<u32>, layer: int, k: nat, ef: nat, st: SearchState) -> SearchState {
    let cur = st.frontier[0].0 as int;
    let popped = SearchState { frontier: st.frontier.subrange(1, st.frontier.len() as int), ..st };
    if layer == 0 {
        visit_range(popped, dist, k, ef, cur, g.len() as int)
    } else if layer < g.layers[cur].len() {
        visit_all(popped, dist, k, ef, g.layers[cur][layer])
    } else {
        popped
    }
}

/// Rounds until the frontier is empty, at most `fuel` of them.
pub open spec fn run<E>(g: GraphView<E>, dist: Seq<u32>, layer: int, k: nat, ef: nat, st: SearchState, fuel: nat) -> SearchState
    decreases fuel,
{
    if fuel == 0 || st.frontier.len() == 0 {
        st
    } else {
        run(g, dist, layer, k, ef, expand(g, dist, layer, k, ef, st), (fuel - 1) as nat)
    }
}

/// Seeding with slot `s`: a stored, unvisited slot of the layer is marked
/// and put both among the kept pairs and on the frontier.
pub open spec fn seed_step<E>(g: GraphView<E>, dist: Seq<u32>, layer: int, st: SearchState, s: usize) -> SearchState {
    if s < g.len() && !st.visited[s as int] && (layer == 0 || layer < g.layers[s as int].len()) {
        let e = (s, dist[s as int]);
        SearchState {
            cands: ins(st.cands, e, usize::MAX as int),
            frontier: ins(st.frontier, e, usize::MAX as int),
            visited: st.visited.update(s as int, true),
        }
    } else {
        st
    }
}

pub open spec fn seed_all<E>(g: GraphView<E>, dist: Seq<u32>, layer: int, st: SearchState, entry: Seq<usize>) -> SearchState
    decreases entry.len(),
{
    if entry.len() == 0 {
        st
    } else {
        seed_step(g, dist, layer, seed_all(g, dist, layer, st, entry.drop_last()), entry.last())
    }
}

/// The state a layer search starts from: nothing visited but `exclude`.
pub open spec fn start_state<E>(g: GraphView<E>, exclude: Option<usize>) -> SearchState {
    SearchState {
        cands: Seq::empty(),
        frontier: Seq::empty(),
        visited: Seq::new(g.len(), |x: int| exclude == Some(x as usize)),
    }
}

/// What a layer search returns: the seeds are taken in, the kept pairs cut
/// to `k`, and rounds run until the frontier is empty.
pub open spec fn search_result<E>(
    g: GraphView<E>,
    dist: Seq<u32>,
    entry: Seq<usize>,
    layer: int,
    k: nat,
    ef: nat,
    exclude: Option<usize>,
) -> Seq<(usize, u32)> {
    if k == 0 {
        Seq::empty()
    } else {
        let seeded = seed_all(g, dist, layer, start_state(g, exclude), entry);
        let st = SearchState {
            cands: if seeded.cands.len() > k { seeded.cands.subrange(0, k as int) } else { seeded.cands },
            ..seeded
        };
        run(g, dist, layer, k, ef, st, entry.len() + g.len() + 1).cands
    }
}

proof fn lemma_ins_pos(list: Seq<(usize, u32)>, e: (usize, u32), p: int)
    requires
        0 <= p <= list.len(),
        forall|a: int| 0 <= a < p ==> pair_lt(list[a], e),
        p < list.len() ==> !pair_lt(list[p], e),
    ensures
        ins_pos(list, e) == p,
    decreases list.len(),
{
    if list.len() > 0 && p > 0 {
        let rest = list.subrange(1, list.len() as int);
        assert forall|a: int| 0 <= a < p - 1 implies pair_lt(rest[a], e) by {
            assert(rest[a] == list[a + 1]);
        }
        if p - 1 < rest.len() {
            assert(rest[p - 1] == list[p]);
        }
        lemma_ins_pos(rest, e, p - 1);
    }
}

/// Inserts `e` after every pair that comes before it, then drops the last
/// pair if the list has grown beyond `cap`.
fn insert_sorted(list: &mut Vec<(usize, u32)>, e: (usize, u32), cap: usize) -> (p: usize)
    requires
        sorted_by_pair(old(list)@),
    ensures
        sorted_by_pair(final(list)@),
        sorted_by_key(final(list)@),
        p <= old(list)@.len(),
        forall|a: int| 0 <= a < p ==> pair_lt(old(list)@[a], e),
        forall|a: int| 0 <= a < p ==> old(list)@[a].1 <= e.1,
        forall|a: int| p <= a < old(list)@.len() ==> !pair_lt(old(list)@[a], e),
        final(list)@ == (if old(list)@.len() + 1 > cap {
            old(list)@.insert(p as int, e).drop_last()
        } else {
            old(list)@.insert(p as int, e)
        }),
        final(list)@ == ins(old(list)@, e, cap as int),
{
    let mut p: usize = 0;
    while p < list.len() && (list[p].1 < e.1 || (list[p].1 == e.1 && list[p].0 < e.0))
        invariant
            p <= list.len(),
            forall|a: int| 0 <= a < p ==> pair_lt(list@[a], e),
        decreases list.len() - p,
    {
        p += 1;
    }
    let ghost before = list@;
    proof {
        lemma_ins_pos(before, e, p as int);
        assert forall|a: int| p <= a < before.len() implies !pair_lt(before[a], e) by {
            assert(!pair_lt(before[p as int], e));
            if a > p {
                assert(!pair_lt(before[a], before[p as int]));
            }
        }
    }
    list.insert(p, e);
    assert(sorted_by_pair(list@)) by {
        assert forall|a: int, b: int| 0 <= a < b < list@.len() implies !pair_lt(list@[b], list@[a]) by {
            if a < p && b > p {
                assert(pair_lt(before[a], e));
                assert(!pair_lt(before[b - 1], e));
            }
        }
    }
    if list.len() > cap {
        list.pop();
    }
    assert(sorted_by_key(list@)) by {
        assert forall|a: int, b: int| 0 <= a < b < list@.len() implies list@[a].1 <= list@[b].1 by {
            assert(!pair_lt(list@[b], list@[a]));
        }
    }
    p
}

/// The state a layer search keeps between visits: the kept pairs meet the
/// result's shape, every kept or excluded slot is visited, and every
/// visited slot that was not kept is no nearer than the kept ones.
pub open spec fn search_state<E>(
    g: GraphView<E>,
    dist: Seq<u32>,
    layer: int,
    k: nat,
    exclude: Option<usize>,
    cands: Seq<(usize, u32)>,
    visited: Seq<bool>,
) -> bool {
    &&& dist.len() == g.len()
    &&& visited.len() == g.len()
    &&& layer_result(g, dist, layer, k, exclude, cands)
    &&& forall|a: int| 0 <= a < cands.len() ==> visited[#[trigger] cands[a].0 as int]
    &&& forall|x: usize| exclude == Some(x) && x < g.len() ==> visited[x as int]
    &&& forall|j: usize|
        #![trigger holds(cands, j)]
        j < g.len() && visited[j as int] && exclude != Some(j) && !holds(cands, j) ==> cands.len()
            == k && forall|a: int| 0 <= a < cands.len() ==> !pair_lt((j, dist[j as int]), cands[a])
}

impl<E> HNSWIndex<E> {
    /// Marks slot `j` visited; if it is nearer than the worst kept pair, or
    /// fewer than `k` are kept, keeps it and adds it to the frontier.
    fn visit(
        &self,
        dist: &Vec<u32>,
        layer: usize,
        k: usize,
        ef: usize,
        exclude: Option<usize>,
        j: usize,
        cands: &mut Vec<(usize, u32)>,
        frontier: &mut Vec<(usize, u32)>,
        visited: &mut Vec<bool>,
    )
        requires
            self.wf(),
            k > 0,
            j < self@.len(),
            self@.in_layer(j as int, layer as int),
            search_state(self@, dist@, layer as int, k as nat, exclude, old(cands)@, old(visited)@),
            sorted_by_pair(old(frontier)@),
            keyed_by(old(frontier)@, dist@),
            forall|a: int| 0 <= a < old(frontier)@.len() ==> old(visited)@[#[trigger] old(frontier)@[a].0 as int],
        ensures
            search_state(self@, dist@, layer as int, k as nat, exclude, final(cands)@, final(visited)@),
            sorted_by_pair(final(frontier)@),
            keyed_by(final(frontier)@, dist@),
            forall|a: int| 0 <= a < final(frontier)@.len() ==> final(visited)@[#[trigger] final(frontier)@[a].0 as int],
            final(visited)@ == old(visited)@.update(j as int, true),
            final(cands)@.len() >= old(cands)@.len(),
            old(visited)@[j as int] ==> final(frontier)@ == old(frontier)@ && final(visited)@ == old(visited)@,
            !old(visited)@[j as int] ==> final(frontier)@.len() <= old(frontier)@.len() + 1
                && count_true(final(visited)@) == count_true(old(visited)@) + 1,
            (SearchState { cands: final(cands)@, frontier: final(frontier)@, visited: final(visited)@ }) == visit_step(
                SearchState { cands: old(cands)@, frontier: old(frontier)@, visited: old(visited)@ },
                dist@,
                k as nat,
                ef as nat,
                j,
            ),
    {
        if visited[j] {
            assert(old(visited)@.update(j as int, true) =~= old(visited)@);
            return;
        }
        proof {
            lemma_count_set(visited@, j as int);
        }
        visited.set(j, true);
        let dj = dist[j];
        let n = cands.len();
        let ghost c0 = cands@;
        let ghost f0 = frontier@;
        if n < k || dj < cands[n - 1].1 || (dj == cands[n - 1].1 && j < cands[n - 1].0) {
            let p = insert_sorted(cands, (j, dj), k);
            let pf = insert_sorted(frontier, (j, dj), ef);
            proof {
                lemma_accept(self@, dist@, layer as int, k as nat, exclude, c0, cands@, old(visited)@, j, p as int);
                lemma_insert_members(f0, pf as int, (j, dj), frontier@, ef as int);
                assert forall|a: int| 0 <= a < frontier@.len() implies visited@[#[trigger] frontier@[a].0 as int] by {
                    if a < pf {
                        assert(old(visited)@[f0[a].0 as int]);
                    } else if a > pf {
                        assert(old(visited)@[f0[a - 1].0 as int]);
                    }
                }
            }
        } else {
            proof {
                lemma_reject(self@, dist@, layer as int, k as nat, exclude, c0, old(visited)@, j);
                assert forall|a: int| 0 <= a < frontier@.len() implies visited@[#[trigger] frontier@[a].0 as int] by {
                    assert(old(visited)@[f0[a].0 as int]);
                }
            }
        }
    }
}

impl<E> HNSWIndex<E> {
    /// Greedy best-first search inside one layer, from the seeds in
    /// `entry`, for the `k` slots nearest by `dist` (the key of each slot's
    /// distance to the query). Slot `exclude` is never reached. On layer 0
    /// every node counts as a neighbour of every other, so a seeded search
    /// there sees the whole graph. Equal keys are ordered by slot: a reached
    /// node is kept when fewer than `k` are kept or it comes before the last
    /// kept pair in (key, slot) order, so of two nodes at the same distance
    /// the lower slot wins, whichever is reached first.
    pub fn search_layer(
        &self,
        dist: &Vec<u32>,
        entry: &Vec<usize>,
        layer: usize,
        k: usize,
        exclude: Option<usize>,
    ) -> (r: Vec<(usize, u32)>)
        requires
            self.wf(),
            dist@.len() == self@.len(),
        ensures
            layer_result(self@, dist@, layer as int, k as nat, exclude, r@),
            k > 0 && (exists|a: int| 0 <= a < entry@.len() && usable_seed(self@, layer as int, exclude, #[trigger] entry@[a]))
                ==> r@.len() > 0,
            layer == 0 && (exists|a: int| 0 <= a < entry@.len() && usable_seed(self@, layer as int, exclude, #[trigger] entry@[a]))
                ==> nearest(r@, dist@, k as nat, exclude),
            r@ == search_result(self@, dist@, entry@, layer as int, k as nat, self@.params.ef_construction as nat, exclude),
    {
        let n = self.ids.len();
        let mut cands: Vec<(usize, u32)> = Vec::new();
        if k == 0 {
            return cands;
        }
        let mut visited: Vec<bool> = Vec::new();
        let mut i: usize = 0;
        while i < n
            invariant
                i <= n,
                visited@.len() == i,
                forall|x: int| 0 <= x < i ==> !visited@[x],
            decreases n - i,
        {
            visited.push(false);
            i += 1;
        }
        if let Some(x) = exclude {
            if x < n {
                visited.set(x, true);
            }
        }
        let mut frontier: Vec<(usize, u32)> = Vec::new();
        let ghost g = self@;
        let ghost ef = g.params.ef_construction as nat;
        proof {
            assert(visited@ =~= start_state(g, exclude).visited);
            assert(entry@.subrange(0, 0) =~= Seq::<usize>::empty());
        }
        let mut i: usize = 0;
        while i < entry.len()
            invariant
                self.wf(),
                g == self@,
                (SearchState { cands: cands@, frontier: frontier@, visited: visited@ }) == seed_all(
                    g,
                    dist@,
                    layer as int,
                    start_state(g, exclude),
                    entry@.subrange(0, i as int),
                ),
                n == g.len(),
                dist@.len() == n,
                visited@.len() == n,
                k > 0,
                i <= entry@.len(),
                cands@.len() <= i,
                layer_result(g, dist@, layer as int, usize::MAX as nat, exclude, cands@),
                frontier@ == cands@,
                forall|a: int| 0 <= a < cands@.len() ==> visited@[#[trigger] cands@[a].0 as int],
                forall|x: usize| exclude == Some(x) && x < n ==> visited@[x as int],
                forall|j: usize| #![trigger holds(cands@, j)]
                    j < n && visited@[j as int] && exclude != Some(j) ==> holds(cands@, j),
                forall|a: int| 0 <= a < i && usable_seed(g, layer as int, exclude, #[trigger] entry@[a])
                    ==> visited@[entry@[a] as int],
            decreases entry.len() - i,
        {
            let s = entry[i];
            proof {
                assert(entry@.subrange(0, i as int + 1).drop_last() =~= entry@.subrange(0, i as int));
                if s < n {
                    assert(g.layers[s as int].len() == self.links@[s as int].len());
                }
            }
            if s < n && !visited[s] && (layer == 0 || layer < self.links[s].len()) {
                proof {
                    assert(g.layers[s as int].len() >= 1);
                    assert(g.layers[s as int].len() == self.links@[s as int].len());
                }
                let ghost v0 = visited@;
                visited.set(s, true);
                let ghost c0 = cands@;
                let p = insert_sorted(&mut cands, (s, dist[s]), usize::MAX);
                let _ = insert_sorted(&mut frontier, (s, dist[s]), usize::MAX);
                proof {
                    lemma_insert_members(c0, p as int, (s, dist@[s as int]), cands@, usize::MAX as int);
                    assert(!holds(c0, s));
                    assert(distinct_slots(cands@)) by {
                        assert forall|a: int, b: int|
                            0 <= a < cands@.len() && 0 <= b < cands@.len() && a != b implies cands@[a].0
                                != cands@[b].0 by {
                            if a != p && b != p {
                                let a0 = if a < p { a } else { a - 1 };
                                let b0 = if b < p { b } else { b - 1 };
                                assert(c0[a0] == cands@[a] && c0[b0] == cands@[b]);
                            }
                        }
                    }
                    assert forall|j: usize| #![trigger holds(cands@, j)]
                        j < n && visited@[j as int] && exclude != Some(j) implies holds(cands@, j) by {
                        if j == s {
                            assert(cands@[p as int].0 == s);
                        } else {
                            assert(v0[j as int]);
                            assert(holds(c0, j));
                            let w = choose|w: int| 0 <= w < c0.len() && c0[w].0 == j;
                            let w1 = if w < p { w } else { w + 1 };
                            assert(cands@[w1].0 == j);
                        }
                    }
                }
            }
            i += 1;
        }
        let ghost seeded = exists|a: int| 0 <= a < entry@.len() && usable_seed(g, layer as int, exclude, #[trigger] entry@[a]);
        proof {
            if seeded {
                let a = choose|a: int| 0 <= a < entry@.len() && usable_seed(g, layer as int, exclude, #[trigger] entry@[a]);
                assert(holds(cands@, entry@[a]));
            }
        }
        let ghost before = cands@;
        proof {
            assert(entry@.subrange(0, i as int) =~= entry@);
        }
        cands.truncate(k);
        let ghost fuel0 = (entry@.len() + n + 1) as nat;
        let ghost st0 = SearchState { cands: cands@, frontier: frontier@, visited: visited@ };
        let ghost mut fuel = fuel0;
        proof {
            let seeded = seed_all(g, dist@, layer as int, start_state(g, exclude), entry@);
            assert(seeded.cands == before);
            assert(st0 == SearchState {
                cands: if seeded.cands.len() > k { seeded.cands.subrange(0, k as int) } else { seeded.cands },
                ..seeded
            }) by {
                if seeded.cands.len() <= k {
                    assert(cands@ =~= before);
                }
            }
            assert(search_result(g, dist@, entry@, layer as int, k as nat, ef, exclude) == run(g, dist@, layer as int, k as nat, ef, st0, fuel0).cands);
        }
        proof {
            assert forall|j: usize| #![trigger holds(cands@, j)]
                j < n && visited@[j as int] && exclude != Some(j) && !holds(cands@, j) implies cands@.len() == k
                    && forall|a: int| 0 <= a < cands@.len() ==> !pair_lt((j, dist@[j as int]), cands@[a]) by {
                assert(holds(before, j));
                let w = choose|w: int| 0 <= w < before.len() && before[w].0 == j;
                if w < k {
                    assert(cands@[w].0 == j);
                }
                assert(w >= k);
                assert forall|a: int| 0 <= a < cands@.len() implies !pair_lt((j, dist@[j as int]), cands@[a]) by {
                    assert(!pair_lt(before[w], before[a]));
                }
            }
        }
        proof {
            lemma_count_le(visited@);
        }
        while frontier.len() > 0
            invariant
                self.wf(),
                g == self@,
                n == g.len(),
                k > 0,
                search_state(g, dist@, layer as int, k as nat, exclude, cands@, visited@),
                sorted_by_pair(frontier@),
                keyed_by(frontier@, dist@),
                forall|a: int| 0 <= a < frontier@.len() ==> visited@[#[trigger] frontier@[a].0 as int],
                seeded ==> cands@.len() > 0,
                layer == 0 && seeded ==> frontier@.len() > 0 || forall|j: int| 0 <= j < n ==> #[trigger] visited@[j],
                count_true(visited@) <= n,
                ef == g.params.ef_construction,
                fuel >= frontier@.len() + n - count_true(visited@) + 1,
                search_result(g, dist@, entry@, layer as int, k as nat, ef, exclude) == run(g, dist@, layer as int, k as nat, ef, st0, fuel0).cands,
                run(g, dist@, layer as int, k as nat, ef, SearchState { cands: cands@, frontier: frontier@, visited: visited@ }, fuel)
                    == run(g, dist@, layer as int, k as nat, ef, st0, fuel0),
            decreases frontier@.len() + n - count_true(visited@),
        {
            let ghost m0 = frontier@.len() + n - count_true(visited@);
            let ghost before_st = SearchState { cands: cands@, frontier: frontier@, visited: visited@ };
            let (cur, _) = frontier.remove(0);
            let ghost popped = SearchState { cands: cands@, frontier: frontier@, visited: visited@ };
            proof {
                assert(frontier@ =~= before_st.frontier.subrange(1, before_st.frontier.len() as int));
                assert(cur == before_st.frontier[0].0);
            }
            proof {
                assert(sorted_by_pair(frontier@));
                assert(keyed_by(frontier@, dist@));
            }
            proof {
                assert(g.layers[cur as int].len() == self.links@[cur as int].len());
            }
            if layer == 0 {
                let mut j: usize = 0;
                while j < n
                    invariant
                        self.wf(),
                        g == self@,
                        n == g.len(),
                        k > 0,
                        layer == 0,
                        cur < n,
                        visited@[cur as int],
                        j <= n,
                        search_state(g, dist@, layer as int, k as nat, exclude, cands@, visited@),
                        sorted_by_pair(frontier@),
                        keyed_by(frontier@, dist@),
                        forall|a: int| 0 <= a < frontier@.len() ==> visited@[#[trigger] frontier@[a].0 as int],
                        seeded ==> cands@.len() > 0,
                        forall|x: int| 0 <= x < j ==> #[trigger] visited@[x],
                        count_true(visited@) <= n,
                        frontier@.len() + n - count_true(visited@) < m0,
                        ef == g.params.ef_construction,
                        (SearchState { cands: cands@, frontier: frontier@, visited: visited@ }) == visit_range(
                            popped,
                            dist@,
                            k as nat,
                            ef,
                            cur as int,
                            j as int,
                        ),
                    decreases n - j,
                {
                    if j != cur {
                        proof {
                            assert(g.layers[j as int].len() >= 1);
                            lemma_count_le(visited@.update(j as int, true));
                        }
                        self.visit(dist, layer, k, self.params.ef_construction, exclude, j, &mut cands, &mut frontier, &mut visited);
                    }
                    j += 1;
                }
            } else if layer < self.links[cur].len() {
                let nb = &self.links[cur][layer];
                proof {
                    assert(g.layers[cur as int] == self.links@[cur as int]@.map_values(|w: Vec<usize>| w@));
                    assert(nb@ == g.layers[cur as int][layer as int]);
                }
                let mut q: usize = 0;
                assert(nb@.subrange(0, 0) =~= Seq::<usize>::empty());
                while q < nb.len()
                    invariant
                        self.wf(),
                        g == self@,
                        n == g.len(),
                        k > 0,
                        cur < n,
                        layer < g.layers[cur as int].len(),
                        nb@ == g.layers[cur as int][layer as int],
                        q <= nb@.len(),
                        search_state(g, dist@, layer as int, k as nat, exclude, cands@, visited@),
                        sorted_by_pair(frontier@),
                        keyed_by(frontier@, dist@),
                        forall|a: int| 0 <= a < frontier@.len() ==> visited@[#[trigger] frontier@[a].0 as int],
                        seeded ==> cands@.len() > 0,
                        count_true(visited@) <= n,
                        frontier@.len() + n - count_true(visited@) < m0,
                        ef == g.params.ef_construction,
                        (SearchState { cands: cands@, frontier: frontier@, visited: visited@ }) == visit_all(
                            popped,
                            dist@,
                            k as nat,
                            ef,
                            nb@.subrange(0, q as int),
                        ),
                    decreases nb@.len() - q,
                {
                    let j = nb[q];
                    proof {
                        assert(nb@.subrange(0, q as int + 1).drop_last() =~= nb@.subrange(0, q as int));
                        assert(g.layers[cur as int][layer as int][q as int] == j);
                        lemma_count_le(visited@.update(j as int, true));
                    }
                    self.visit(dist, layer, k, self.params.ef_construction, exclude, j, &mut cands, &mut frontier, &mut visited);
                    q += 1;
                }
                assert(nb@.subrange(0, q as int) =~= nb@);
            }
            proof {
                assert((SearchState { cands: cands@, frontier: frontier@, visited: visited@ }) == expand(
                    g,
                    dist@,
                    layer as int,
                    k as nat,
                    ef,
                    before_st,
                ));
                assert(run(g, dist@, layer as int, k as nat, ef, before_st, fuel) == run(
                    g,
                    dist@,
                    layer as int,
                    k as nat,
                    ef,
                    expand(g, dist@, layer as int, k as nat, ef, before_st),
                    (fuel - 1) as nat,
                ));
                fuel = (fuel - 1) as nat;
            }
        }
        proof {
            let fin = SearchState { cands: cands@, frontier: frontier@, visited: visited@ };
            assert(run(g, dist@, layer as int, k as nat, ef, fin, fuel) == fin);
            if layer == 0 && seeded {
                assert forall|j: usize| #![trigger holds(cands@, j)]
                    j < dist@.len() && exclude != Some(j) && !holds(cands@, j) implies cands@.len() == k
                        && forall|a: int| 0 <= a < cands@.len() ==> !pair_lt((j, dist@[j as int]), cands@[a]) by {
                    assert(visited@[j as int]);
                }
            }
        }
        cands
    }
}

/// The slots of a search result, in its order.
pub fn slots_of(r: &Vec<(usize, u32)>) -> (s: Vec<usize>)
    ensures
        s@ == r@.map_values(|c: (usize, u32)| c.0),
{
    let mut s: Vec<usize> = Vec::new();
    let mut i: usize = 0;
    while i < r.len()
        invariant
            i <= r.len(),
            s@ == r@.subrange(0, i as int).map_values(|c: (usize, u32)| c.0),
        decreases r.len() - i,
    {
        s.push(r[i].0);
        i += 1;
        assert(s@ =~= r@.subrange(0, i as int).map_values(|c: (usize, u32)| c.0));
    }
    assert(r@.subrange(0, i as int) =~= r@);
    s
}

impl<E> HNSWIndex<E> {
    /// The `k` nearest nodes to a query whose distance to slot `i` has key
    /// `dist[i]`: one nearest node per layer from the entry point's level
    /// down to layer 1, then a search of layer 0 from there.
    pub fn search(&self, dist: &Vec<u32>, k: usize) -> (r: Vec<(usize, u32)>)
        requires
            self.wf(),
            dist@.len() == self@.len(),
        ensures
            layer_result(self@, dist@, 0, k as nat, None, r@),
            self@.len() > 0 && k > 0 ==> r@.len() > 0,
            self@.len() > 0 ==> nearest(r@, dist@, k as nat, None),
            self@.len() == 0 ==> r@.len() == 0,
    {
        let ep = match self.entry {
            Some(e) => e,
            None => {
                return Vec::new();
            },
        };
        let ghost g = self@;
        proof {
            assert(g.layers[ep as int].len() >= 1);
            assert(g.layers[ep as int].len() == self.links@[ep as int].len());
        }
        let top = self.links[ep].len() - 1;
        let mut seeds: Vec<usize> = Vec::new();
        seeds.push(ep);
        let mut layer = top;
        while layer > 0
            invariant
                self.wf(),
                g == self@,
                dist@.len() == g.len(),
                layer <= top,
                seeds@.len() > 0,
                forall|a: int| 0 <= a < seeds@.len() ==> #[trigger] seeds@[a] < g.len() && g.in_layer(seeds@[a] as int, layer as int),
            decreases layer,
        {
            let found = self.search_layer(dist, &seeds, layer, 1, None);
            assert(usable_seed(g, layer as int, None, seeds@[0]));
            seeds = slots_of(&found);
            layer -= 1;
        }
        assert(usable_seed(g, 0, None, seeds@[0]));
        self.search_layer(dist, &seeds, 0, k, None)
    }

    /// Picks at most `m` of `cands` (ascending by key) as neighbours: the
    /// nearest first, then each time the remaining candidate whose worst
    /// score against those already picked is lowest. `score[i][j]` scores
    /// candidate `i` against candidate `j`; a score of `u32::MAX` is never
    /// picked over the first remaining candidate.
    pub fn select_neighbors(&self, cands: &Vec<(usize, u32)>, score: &Vec<Vec<u32>>, m: usize) -> (r: Vec<usize>)
        requires
            score@.len() == cands@.len(),
            forall|i: int| 0 <= i < cands@.len() ==> #[trigger] score@[i]@.len() == cands@.len(),
        ensures
            r@ == selection(cands@, score@.map_values(|v: Vec<u32>| v@), m as nat),
    {
        let n = cands.len();
        let ghost sc = score@.map_values(|v: Vec<u32>| v@);
        if n <= m {
            return slots_of(cands);
        }
        let mut sel: Vec<usize> = Vec::new();
        sel.push(0);
        let mut rem: Vec<usize> = Vec::new();
        let mut worst: Vec<u32> = Vec::new();
        let mut i: usize = 0;
        while i < n
            invariant
                n == cands@.len(),
                n == score@.len(),
                sc == score@.map_values(|v: Vec<u32>| v@),
                forall|x: int| 0 <= x < n ==> #[trigger] score@[x]@.len() == n,
                sel@ == seq![0usize],
                i <= n,
                worst@.len() == i,
                rem@ == (if i == 0 { Seq::<usize>::empty() } else { Seq::new((i - 1) as nat, |x: int| (x + 1) as usize) }),
                forall|x: int| 0 <= x < i ==> #[trigger] worst@[x] == worst_score(sc, x, sel@),
            decreases n - i,
        {
            proof {
                assert(sc[i as int] == score@[i as int]@);
                assert(worst_score(sc, i as int, sel@) == score@[i as int]@[0]) by {
                    assert(sel@.drop_last() =~= Seq::<usize>::empty());
                    assert(worst_score(sc, i as int, Seq::<usize>::empty()) == 0);
                }
            }
            worst.push(score[i][0]);
            if i > 0 {
                rem.push(i);
            }
            i += 1;
            assert(rem@ =~= (if i == 0 { Seq::<usize>::empty() } else { Seq::new((i - 1) as nat, |x: int| (x + 1) as usize) }));
        }
        assert(selection(cands@, sc, m as nat) == greedy(sc, rem@, sel@, m as nat).map_values(|c: usize| cands@[c as int].0));
        while sel.len() < m && rem.len() > 0
            invariant
                n == cands@.len(),
                n == score@.len(),
                sc == score@.map_values(|v: Vec<u32>| v@),
                forall|x: int| 0 <= x < n ==> #[trigger] score@[x]@.len() == n,
                worst@.len() == n,
                forall|x: int| 0 <= x < rem@.len() ==> #[trigger] rem@[x] < n,
                forall|x: int| 0 <= x < sel@.len() ==> #[trigger] sel@[x] < n,
                forall|x: int| 0 <= x < n ==> #[trigger] worst@[x] == worst_score(sc, x, sel@),
                selection(cands@, sc, m as nat) == greedy(sc, rem@, sel@, m as nat).map_values(|c: usize| cands@[c as int].0),
            decreases rem@.len(),
        {
            let mut b: usize = 0;
            let mut bk: u32 = u32::MAX;
            let mut q: usize = 0;
            while q < rem.len()
                invariant
                    n == worst@.len(),
                    forall|x: int| 0 <= x < rem@.len() ==> #[trigger] rem@[x] < n,
                    forall|x: int| 0 <= x < n ==> #[trigger] worst@[x] == worst_score(sc, x, sel@),
                    q <= rem@.len(),
                    (b as int, bk) == best_pos(sc, rem@, sel@, q as int),
                decreases rem@.len() - q,
            {
                let w = worst[rem[q]];
                if w < bk {
                    b = q;
                    bk = w;
                }
                q += 1;
            }
            proof {
                lemma_best_pos_bound(sc, rem@, sel@, rem@.len() as int);
            }
            let c = rem.remove(b);
            let ghost sel0 = sel@;
            sel.push(c);
            let mut x: usize = 0;
            while x < n
                invariant
                    n == cands@.len(),
                    n == score@.len(),
                    sc == score@.map_values(|v: Vec<u32>| v@),
                    forall|y: int| 0 <= y < n ==> #[trigger] score@[y]@.len() == n,
                    c < n,
                    sel@ == sel0.push(c),
                    worst@.len() == n,
                    x <= n,
                    forall|y: int| 0 <= y < x ==> #[trigger] worst@[y] == worst_score(sc, y, sel@),
                    forall|y: int| x <= y < n ==> #[trigger] worst@[y] == worst_score(sc, y, sel0),
                decreases n - x,
            {
                proof {
                    assert(sel@.drop_last() == sel0);
                    assert(sc[x as int] == score@[x as int]@);
                }
                let s = score[x][c];
                if s > worst[x] {
                    worst.set(x, s);
                }
                x += 1;
            }
        }
        let mut r: Vec<usize> = Vec::new();
        let mut t: usize = 0;
        while t < sel.len()
            invariant
                n == cands@.len(),
                forall|x: int| 0 <= x < sel@.len() ==> #[trigger] sel@[x] < n,
                t <= sel@.len(),
                r@ == sel@.subrange(0, t as int).map_values(|c: usize| cands@[c as int].0),
            decreases sel@.len() - t,
        {
            r.push(cands[sel[t]].0);
            t += 1;
            assert(r@ =~= sel@.subrange(0, t as int).map_values(|c: usize| cands@[c as int].0));
        }
        assert(sel@.subrange(0, t as int) =~= sel@);
        r
    }
}

/// The highest score of candidate `i` against the candidates in `sel`.
pub open spec fn worst_score(score: Seq<Seq<u32>>, i: int, sel: Seq<usize>) -> u32
    decreases sel.len(),
{
    if sel.len() == 0 {
        0
    } else {
        let w = worst_score(score, i, sel.drop_last());
        let s = score[i][sel.last() as int];
        if s > w {
            s
        } else {
            w
        }
    }
}

/// Among the first `upto` positions of `rem`, the first whose worst score
/// is lowest, with that score; `(0, u32::MAX)` when none scores below it.
pub open spec fn best_pos(score: Seq<Seq<u32>>, rem: Seq<usize>, sel: Seq<usize>, upto: int) -> (int, u32)
    decreases upto,
{
    if upto <= 0 {
        (0, u32::MAX)
    } else {
        let (b, bk) = best_pos(score, rem, sel, upto - 1);
        let w = worst_score(score, rem[upto - 1] as int, sel);
        if w < bk {
            (upto - 1, w)
        } else {
            (b, bk)
        }
    }
}

/// Moves the best remaining candidate into `sel` until `m` are picked or
/// none remain.
pub open spec fn greedy(score: Seq<Seq<u32>>, rem: Seq<usize>, sel: Seq<usize>, m: nat) -> Seq<usize>
    decreases rem.len(),
{
    if sel.len() >= m || rem.len() == 0 {
        sel
    } else {
        let p = best_pos(score, rem, sel, rem.len() as int).0;
        if 0 <= p < rem.len() {
            greedy(score, rem.remove(p), sel.push(rem[p]), m)
        } else {
            sel
        }
    }
}

/// The slots that neighbour selection picks from `cands`.
pub open spec fn selection(cands: Seq<(usize, u32)>, score: Seq<Seq<u32>>, m: nat) -> Seq<usize> {
    if cands.len() <= m {
        cands.map_values(|c: (usize, u32)| c.0)
    } else {
        greedy(score, Seq::new((cands.len() - 1) as nat, |x: int| (x + 1) as usize), seq![0usize], m).map_values(
            |c: usize| cands[c as int].0,
        )
    }
}

proof fn lemma_best_pos_bound(score: Seq<Seq<u32>>, rem: Seq<usize>, sel: Seq<usize>, upto: int)
    requires
        0 < upto <= rem.len(),
    ensures
        0 <= best_pos(score, rem, sel, upto).0 < upto,
    decreases upto,
{
    if upto > 1 {
        lemma_best_pos_bound(score, rem, sel, upto - 1);
    } else {
        assert(best_pos(score, rem, sel, 0) == (0int, u32::MAX));
    }
}

proof fn lemma_insert_members(c0: Seq<(usize, u32)>, p: int, e: (usize, u32), c1: Seq<(usize, u32)>, cap: int)
    requires
        0 <= p <= c0.len(),
        c1 == (if c0.len() + 1 > cap {
            c0.insert(p, e).drop_last()
        } else {
            c0.insert(p, e)
        }),
    ensures
        c1.len() == c0.len() + 1 || c1.len() == c0.len(),
        c1.len() == c0.len() <==> c0.len() + 1 > cap,
        forall|a: int| 0 <= a < c1.len() ==> #[trigger] c1[a] == if a < p {
            c0[a]
        } else if a == p {
            e
        } else {
            c0[a - 1]
        },
{
}

#[verifier::rlimit(60)]
proof fn lemma_accept<E>(
    g: GraphView<E>,
    dist: Seq<u32>,
    layer: int,
    k: nat,
    exclude: Option<usize>,
    c0: Seq<(usize, u32)>,
    c1: Seq<(usize, u32)>,
    v0: Seq<bool>,
    j: usize,
    p: int,
)
    requires
        search_state(g, dist, layer, k, exclude, c0, v0),
        k > 0,
        j < g.len(),
        g.in_layer(j as int, layer),
        !v0[j as int],
        c0.len() < k || pair_lt((j, dist[j as int]), c0[c0.len() - 1]),
        0 <= p <= c0.len(),
        forall|a: int| 0 <= a < p ==> pair_lt(c0[a], (j, dist[j as int])),
        forall|a: int| 0 <= a < p ==> c0[a].1 <= dist[j as int],
        forall|a: int| p <= a < c0.len() ==> !pair_lt(c0[a], (j, dist[j as int])),
        sorted_by_key(c1),
        sorted_by_pair(c1),
        c1 == (if c0.len() + 1 > k {
            c0.insert(p, (j, dist[j as int])).drop_last()
        } else {
            c0.insert(p, (j, dist[j as int]))
        }),
    ensures
        search_state(g, dist, layer, k, exclude, c1, v0.update(j as int, true)),
        c1.len() >= c0.len(),
{
    let v1 = v0.update(j as int, true);
    let e = (j, dist[j as int]);
    let n = c0.len();
    lemma_insert_members(c0, p, e, c1, k as int);
    assert(c1.len() == n ==> p < n) by {
        if c1.len() == n && p == n {
            assert(pair_lt(c0[n - 1], e));
        }
    }
    assert(!holds(c0, j));
    assert(distinct_slots(c1)) by {
        assert forall|a: int, b: int| 0 <= a < c1.len() && 0 <= b < c1.len() && a != b implies c1[a].0 != c1[b].0 by {
            if a == p {
                assert(v0[c1[b].0 as int]);
            } else if b == p {
                assert(v0[c1[a].0 as int]);
            }
        }
    }
    assert(holds(c1, j)) by {
        assert(c1[p].0 == j);
    }
    assert forall|z: usize|
        #![trigger holds(c1, z)]
        z < g.len() && v1[z as int] && exclude != Some(z) && !holds(c1, z) implies c1.len() == k && forall|a: int|
            0 <= a < c1.len() ==> !pair_lt((z, dist[z as int]), c1[a]) by {
        let last = c0[n - 1];
        if holds(c0, z) {
            let w = choose|w: int| 0 <= w < c0.len() && c0[w].0 == z;
            let w1 = if w < p {
                w
            } else {
                w + 1
            };
            if w1 < c1.len() {
                assert(c1[w1].0 == z);
            }
            assert(w == n - 1);
            assert(last == (z, dist[z as int]));
            assert forall|a: int| 0 <= a < c1.len() implies !pair_lt((z, dist[z as int]), c1[a]) by {
                if a < p {
                    assert(!pair_lt(c0[n - 1], c0[a]));
                } else if a > p {
                    assert(!pair_lt(c0[n - 1], c0[a - 1]));
                }
            }
        } else {
            assert(z != j);
            assert(v0[z as int]);
            assert(!pair_lt((z, dist[z as int]), last));
            assert forall|a: int| 0 <= a < c1.len() implies !pair_lt((z, dist[z as int]), c1[a]) by {
                if a < p {
                    assert(!pair_lt((z, dist[z as int]), c0[a]));
                } else if a > p {
                    assert(!pair_lt((z, dist[z as int]), c0[a - 1]));
                }
            }
        }
    }
}

proof fn lemma_reject<E>(
    g: GraphView<E>,
    dist: Seq<u32>,
    layer: int,
    k: nat,
    exclude: Option<usize>,
    c0: Seq<(usize, u32)>,
    v0: Seq<bool>,
    j: usize,
)
    requires
        search_state(g, dist, layer, k, exclude, c0, v0),
        k > 0,
        j < g.len(),
        !v0[j as int],
        !(c0.len() < k || pair_lt((j, dist[j as int]), c0[c0.len() - 1])),
    ensures
        search_state(g, dist, layer, k, exclude, c0, v0.update(j as int, true)),
{
    let n = c0.len();
    assert forall|a: int| 0 <= a < n implies !pair_lt((j, dist[j as int]), c0[a]) by {
        assert(!pair_lt(c0[n - 1], c0[a]) || a == n - 1);
    }
    let v1 = v0.update(j as int, true);
    assert forall|z: usize|
        #![trigger holds(c0, z)]
        z < g.len() && v1[z as int] && exclude != Some(z) && !holds(c0, z) implies c0.len() == k && forall|a: int|
            0 <= a < c0.len() ==> !pair_lt((z, dist[z as int]), c0[a]) by {
        if z != j {
            assert(v0[z as int]);
        }
    }
}

} // verus!
