//! Properties that hold across the graph's operations.
use vstd::prelude::*;
use crate::graph::{GraphView, removal_of};
use crate::graph::remove::{lemma_removal_wf, removal_chain, removes_in_turn};
use crate::graph::search::{holds, nearest, sorted_by_key, keyed_by, pair_lt};
use crate::graph::insert::insertion_of;
use crate::graph::batch::{batch_fresh, level_ordered, preallocation_of, lists};

verus! {

/// The id map of a well-formed graph has one key per node, and every slot
/// it stores is the slot of a node.
pub proof fn lemma_id_bijection<E>(g: GraphView<E>)
    requires
        g.well_formed(),
    ensures
        g.slots.len() == g.len(),
        forall|k: Seq<char>| #[trigger] g.slots.contains_key(k) ==> g.slots[k] < g.len(),
{
    assert(g.ids.no_duplicates());
    g.ids.unique_seq_to_set();
    assert(g.slots.dom() =~= g.ids.to_set()) by {
        assert forall|k: Seq<char>| g.slots.dom().contains(k) implies g.ids.to_set().contains(k) by {
            assert(g.ids[g.slots[k] as int] == k);
        }
        assert forall|k: Seq<char>| g.ids.to_set().contains(k) implies g.slots.dom().contains(k) by {
            let i = choose|i: int| 0 <= i < g.ids.len() && g.ids[i] == k;
            assert(g.slots.contains_key(g.ids[i]));
        }
    }
}

/// No node of a well-formed graph lists itself as a neighbour.
pub proof fn lemma_no_self_loops<E>(g: GraphView<E>)
    requires
        g.well_formed(),
    ensures
        forall|i: int, l: int, q: int|
            0 <= i < g.len() && 0 <= l < g.layers[i].len() && 0 <= q < g.layers[i][l].len() ==> #[trigger] g.layers[i][l][q]
                != i,
{
}

/// A well-formed graph has an entry point exactly when it has nodes, and
/// no node reaches a higher level than the entry point.
pub proof fn lemma_entry_point<E>(g: GraphView<E>)
    requires
        g.well_formed(),
    ensures
        g.entry is None <==> g.len() == 0,
        forall|e: usize| g.entry == Some(e) ==> e < g.len() && forall|i: int| 0 <= i < g.len() ==> #[trigger] g.level(i) <= g.level(e as int),
{
}

/// Removing every stored id, one after another in any order, leaves an
/// empty graph with no entry point.
pub proof fn lemma_remove_all<E>(states: Seq<GraphView<E>>, ids: Seq<Seq<char>>)
    requires
        states.len() == ids.len() + 1,
        states[0].well_formed(),
        ids.len() == states[0].len(),
        forall|a: int, b: int| 0 <= a < ids.len() && 0 <= b < ids.len() && a != b ==> ids[a] != ids[b],
        forall|a: int| 0 <= a < ids.len() ==> states[0].slots.contains_key(#[trigger] ids[a]),
        forall|t: int| 0 <= t < ids.len() ==> removal_of(#[trigger] states[t], states[t].slots[ids[t]] as int, states[t + 1]),
    ensures
        states[ids.len() as int].well_formed(),
        states[ids.len() as int].len() == 0,
        states[ids.len() as int].entry is None,
        states[ids.len() as int].slots == Map::<Seq<char>, usize>::empty(),
{
    lemma_remove_from(states, ids, 0);
    let last = states[ids.len() as int];
    assert forall|k: Seq<char>| !#[trigger] last.slots.contains_key(k) by {
        if last.slots.contains_key(k) {
            assert(last.slots[k] < last.len());
        }
    }
    assert(last.slots =~= Map::<Seq<char>, usize>::empty());
}

/// Removing, through `remove_multiple`, every stored id of a well-formed
/// graph leaves it empty, with no entry point and an empty id map.
pub proof fn lemma_remove_multiple_all<E>(old: GraphView<E>, ids: Seq<Seq<char>>, new: GraphView<E>)
    requires
        old.well_formed(),
        ids.len() == old.len(),
        forall|a: int, b: int| 0 <= a < ids.len() && 0 <= b < ids.len() && a != b ==> ids[a] != ids[b],
        forall|a: int| 0 <= a < ids.len() ==> old.slots.contains_key(#[trigger] ids[a]),
        removes_in_turn(old, ids, new),
    ensures
        new.well_formed(),
        new.len() == 0,
        new.entry is None,
        new.slots == Map::<Seq<char>, usize>::empty(),
{
    let states = choose|states: Seq<GraphView<E>>|
        #[trigger] removal_chain(states, ids) && states[0] == old && states.last() == new;
    assert forall|t: int| 0 <= t < ids.len() implies removal_of(#[trigger] states[t], states[t].slots[ids[t]] as int, states[t + 1]) by {}
    lemma_remove_all(states, ids);
}

proof fn lemma_remove_from<E>(states: Seq<GraphView<E>>, ids: Seq<Seq<char>>, t: int)
    requires
        0 <= t <= ids.len(),
        states.len() == ids.len() + 1,
        states[t].well_formed(),
        states[t].len() == ids.len() - t,
        forall|u: int| t <= u < ids.len() ==> states[t].slots.contains_key(#[trigger] ids[u]),
        forall|a: int, b: int| 0 <= a < ids.len() && 0 <= b < ids.len() && a != b ==> ids[a] != ids[b],
        forall|x: int| 0 <= x < ids.len() ==> removal_of(#[trigger] states[x], states[x].slots[ids[x]] as int, states[x + 1]),
    ensures
        states[ids.len() as int].well_formed(),
        states[ids.len() as int].len() == 0,
        states[ids.len() as int].entry is None,
    decreases ids.len() - t,
{
    if t < ids.len() {
        let cur = states[t];
        let s = cur.slots[ids[t]] as int;
        assert(removal_of(states[t], s, states[t + 1]));
        assert(cur.ids[s] == ids[t]);
        lemma_removal_wf(cur, s, states[t + 1]);
        assert forall|u: int| t + 1 <= u < ids.len() implies states[t + 1].slots.contains_key(#[trigger] ids[u]) by {
            assert(cur.slots.contains_key(ids[u]));
            assert(ids[u] != ids[t]);
        }
        lemma_remove_from(states, ids, t + 1);
    }
}

/// When one slot's key is strictly below every other, a search result that
/// holds the nearest slots starts with that slot.
pub proof fn lemma_self_query_first(r: Seq<(usize, u32)>, dist: Seq<u32>, k: nat, s: usize)
    requires
        r.len() > 0,
        sorted_by_key(r),
        keyed_by(r, dist),
        nearest(r, dist, k, None),
        s < dist.len(),
        forall|j: int| 0 <= j < dist.len() && j != s ==> dist[s as int] < #[trigger] dist[j],
    ensures
        r[0].0 == s,
        r[0].1 == dist[s as int],
{
    let j = r[0].0;
    if !holds(r, s) {
        assert(!pair_lt((s, dist[s as int]), r[0]));
        assert(r[0].1 == dist[j as int]);
    } else {
        let w = choose|w: int| 0 <= w < r.len() && r[w].0 == s;
        assert(r[0].1 <= r[w].1);
        assert(r[w].1 == dist[s as int]);
        assert(r[0].1 == dist[j as int]);
    }
}

/// Each stored id with its item and level.
pub open spec fn entries<E>(v: GraphView<E>) -> Map<Seq<char>, (E, int)> {
    Map::new(
        |k: Seq<char>| v.slots.contains_key(k),
        |k: Seq<char>| (v.items[v.slots[k] as int], v.level(v.slots[k] as int)),
    )
}

/// Storing a batch gives the same ids, each with the same item and level,
/// as inserting its items one by one in input order with the same levels;
/// only the slots, and the links, may differ.
pub proof fn lemma_batch_matches_sequential<E>(
    g: GraphView<E>,
    bids: Seq<Seq<char>>,
    bitems: Seq<E>,
    levels: Seq<usize>,
    order: Seq<usize>,
    batched: GraphView<E>,
    steps: Seq<GraphView<E>>,
)
    requires
        g.well_formed(),
        batch_fresh(g, bids),
        bitems.len() == bids.len(),
        levels.len() == bids.len(),
        level_ordered(levels, order),
        preallocation_of(g, bids, bitems, levels, order, bids.len() as int, batched),
        batched.well_formed(),
        steps.len() == bids.len() + 1,
        steps[0] == g,
        forall|t: int| 0 <= t < bids.len() ==> (#[trigger] steps[t + 1]).well_formed(),
        forall|t: int|
            0 <= t < bids.len() ==> insertion_of(
                #[trigger] steps[t],
                bids[t],
                bitems[t],
                steps[t + 1].layers[steps[t].len() as int],
                steps[t + 1],
            ),
        forall|t: int| 0 <= t < bids.len() ==> (#[trigger] steps[t + 1]).layers[steps[t].len() as int].len() == levels[t] + 1,
    ensures
        entries(batched) == entries(steps[bids.len() as int]),
{
    let n = g.len() as int;
    let b = bids.len() as int;
    assert forall|u: int| 0 <= u < b implies appended(#[trigger] steps[u], steps[u + 1], bids[u], bitems[u], levels[u] as nat) by {
        if u > 0 {
            assert(steps[(u - 1) + 1].well_formed());
        }
        lemma_insertion_appends(steps[u], steps[u + 1], bids[u], bitems[u], levels[u] as nat);
    }
    assert(steps[b].well_formed()) by {
        if b > 0 {
            assert(steps[(b - 1) + 1].well_formed());
        }
    }
    lemma_steps(g, bids, bitems, levels, steps, b);
    assert(bids.subrange(0, b) =~= bids);
    assert(bitems.subrange(0, b) =~= bitems);
    lemma_same_entries(g, bids, bitems, levels, order, batched, steps[b]);
}

proof fn lemma_insertion_appends<E>(prev: GraphView<E>, next: GraphView<E>, id: Seq<char>, item: E, lvl: nat)
    requires
        prev.well_formed(),
        insertion_of(prev, id, item, next.layers[prev.len() as int], next),
        next.layers[prev.len() as int].len() == lvl + 1,
    ensures
        appended(prev, next, id, item, lvl),
{
}

proof fn lemma_same_entries<E>(
    g: GraphView<E>,
    bids: Seq<Seq<char>>,
    bitems: Seq<E>,
    levels: Seq<usize>,
    order: Seq<usize>,
    batched: GraphView<E>,
    f: GraphView<E>,
)
    requires
        g.layers.len() == g.len(),
        bitems.len() == bids.len(),
        levels.len() == bids.len(),
        level_ordered(levels, order),
        preallocation_of(g, bids, bitems, levels, order, bids.len() as int, batched),
        batched.well_formed(),
        f.well_formed(),
        f.ids == g.ids + bids,
        f.items == g.items + bitems,
        forall|i: int| 0 <= i < g.len() ==> #[trigger] f.layers[i].len() == g.layers[i].len(),
        forall|u: int| 0 <= u < bids.len() ==> #[trigger] f.layers[g.len() + u].len() == levels[u] + 1,
    ensures
        entries(batched) == entries(f),
{
    let n = g.len() as int;
    assert forall|k: Seq<char>| #[trigger] batched.slots.contains_key(k) implies f.slots.contains_key(k) by {
        let i = batched.slots[k] as int;
        assert(batched.ids[i] == k);
        if i < n {
            assert(f.ids[i] == k);
            assert(f.slots.contains_key(f.ids[i]));
        } else {
            assert(batched.ids[i] == bids[order[i - n] as int]);
            assert(f.ids[n + order[i - n]] == k);
            assert(f.slots.contains_key(f.ids[n + order[i - n]]));
        }
    }
    assert forall|k: Seq<char>| #[trigger] f.slots.contains_key(k) implies batched.slots.contains_key(k) by {
        let i = f.slots[k] as int;
        assert(f.ids[i] == k);
        if i < n {
            assert(batched.ids[i] == k);
            assert(batched.slots.contains_key(batched.ids[i]));
        } else {
            let t = i - n;
            assert(lists(order, t));
            let a = choose|a: int| 0 <= a < order.len() && #[trigger] order[a] == t;
            assert(batched.ids[n + a] == bids[t]);
            assert(batched.slots.contains_key(batched.ids[n + a]));
        }
    }
    assert forall|k: Seq<char>| #[trigger] batched.slots.contains_key(k) implies entries(batched)[k] == entries(f)[k] by {
        let i = batched.slots[k] as int;
        assert(batched.ids[i] == k);
        if i < n {
            assert(f.ids[i] == k);
            assert(f.slots.contains_key(f.ids[i]));
            assert(f.slots[k] == i);
            assert(batched.items[i] == g.items[i]);
            assert(batched.layers[i] == g.layers[i]);
        } else {
            let t = order[i - n] as int;
            assert(batched.ids[i] == bids[t]);
            assert(f.ids[n + t] == k);
            assert(f.slots.contains_key(f.ids[n + t]));
            assert(f.slots[k] == n + t);
            assert(batched.items[i] == bitems[t]);
            assert(f.items[n + t] == bitems[t]);
        }
    }
    assert(entries(batched) =~= entries(f));
}

/// Writing a node's neighbour lists, one per layer it takes part in, keeps
/// every id with its item and level: linking a stored batch changes no
/// entry.
pub proof fn lemma_commit_keeps_entries<E>(old: GraphView<E>, slot: int, conns: Seq<Seq<usize>>)
    requires
        old.well_formed(),
        0 <= slot < old.len(),
        conns.len() == old.layers[slot].len(),
    ensures
        entries(GraphView { layers: old.layers.update(slot, conns), ..old }) == entries(old),
{
    let new = GraphView { layers: old.layers.update(slot, conns), ..old };
    assert forall|k: Seq<char>| #[trigger] old.slots.contains_key(k) implies entries(new)[k] == entries(old)[k] by {
        let i = old.slots[k] as int;
        assert(new.layers[i].len() == old.layers[i].len());
    }
    assert(entries(new) =~= entries(old));
}

/// `next` is `prev` with one node appended: its id, its item, and lists
/// for `lvl + 1` layers; the old nodes keep their levels.
pub open spec fn appended<E>(prev: GraphView<E>, next: GraphView<E>, id: Seq<char>, item: E, lvl: nat) -> bool {
    &&& next.ids == prev.ids.push(id)
    &&& next.items == prev.items.push(item)
    &&& next.layers.len() == prev.layers.len() + 1
    &&& forall|i: int| 0 <= i < prev.layers.len() ==> #[trigger] next.layers[i].len() == prev.layers[i].len()
    &&& next.layers[prev.layers.len() as int].len() == lvl + 1
}

proof fn lemma_steps<E>(
    g: GraphView<E>,
    bids: Seq<Seq<char>>,
    bitems: Seq<E>,
    levels: Seq<usize>,
    steps: Seq<GraphView<E>>,
    t: int,
)
    requires
        0 <= t <= bids.len(),
        g.layers.len() == g.len(),
        bitems.len() == bids.len(),
        levels.len() == bids.len(),
        steps.len() == bids.len() + 1,
        steps[0] == g,
        forall|u: int| 0 <= u < bids.len() ==> appended(#[trigger] steps[u], steps[u + 1], bids[u], bitems[u], levels[u] as nat),
    ensures
        steps[t].ids == g.ids + bids.subrange(0, t),
        steps[t].items == g.items + bitems.subrange(0, t),
        steps[t].layers.len() == g.len() + t,
        forall|i: int| 0 <= i < g.len() ==> #[trigger] steps[t].layers[i].len() == g.layers[i].len(),
        forall|u: int| 0 <= u < t ==> #[trigger] steps[t].layers[g.len() + u].len() == levels[u] + 1,
    decreases t,
{
    if t == 0 {
        assert(g.ids + bids.subrange(0, 0) =~= g.ids);
        assert(g.items + bitems.subrange(0, 0) =~= g.items);
    } else {
        lemma_steps(g, bids, bitems, levels, steps, t - 1);
        let prev = steps[t - 1];
        assert(appended(prev, steps[t], bids[t - 1], bitems[t - 1], levels[t - 1] as nat));
        assert(g.ids + bids.subrange(0, t) =~= (g.ids + bids.subrange(0, t - 1)).push(bids[t - 1]));
        assert(g.items + bitems.subrange(0, t) =~= (g.items + bitems.subrange(0, t - 1)).push(bitems[t - 1]));
    }
}

} // verus!
