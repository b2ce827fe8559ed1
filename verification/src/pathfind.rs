//! A generic best-first search engine with index-based bookkeeping, and
//! the collision-aware path query built on it.
//!
//! The open set is a min-heap of `(priority, node index)` pairs from an
//! outside crate, taken on trust through small wrappers below. Nodes
//! live in a growable pool and refer to each other by integer index;
//! the caller supplies a state-to-index function, which replaces
//! hashing: predecessor and best-cost tables are plain vectors indexed
//! by it.

use vstd::prelude::*;

use crate::agent::Agent;
use crate::cell::{
    lemma_fits_monotone, spec_dist2, spec_step, spec_template_list, spec_template_ok, Cell,
    CostModel, NeighborCache,
};
use crate::grid::{Grid, GridVec};

verus! {

use vstd::multiset::Multiset;

broadcast use vstd::multiset::group_multiset_axioms;

/// Declares binary_heap_plus::BinaryHeap to the verifier; values of it
/// are opaque and live behind the wrappers below.
#[verifier::external_type_specification]
#[verifier::external_body]
#[verifier::reject_recursive_types(T)]
#[verifier::reject_recursive_types(C)]
pub struct ExBinaryHeap<T, C>(binary_heap_plus::BinaryHeap<T, C>);

/// Declares binary_heap_plus::MinComparator, the comparator that makes
/// the heap pop its least element first.
#[verifier::external_type_specification]
#[verifier::external_body]
pub struct ExMinComparator(binary_heap_plus::MinComparator);

/// What the open set holds: the multiset of `(priority, node index)`
/// pairs pushed and not yet popped.
pub uninterp spec fn spec_heap_contents(
    h: binary_heap_plus::BinaryHeap<(u32, usize), binary_heap_plus::MinComparator>,
) -> Multiset<(u32, usize)>;

/// The order the open set pops in: by priority, ties by node index.
pub open spec fn spec_key_le(a: (u32, usize), b: (u32, usize)) -> bool {
    a.0 < b.0 || (a.0 == b.0 && a.1 <= b.1)
}

/// Relies on binary_heap_plus::BinaryHeap::with_capacity_min: an empty
/// min-heap with the given capacity.
#[verifier::external_body]
fn heap_with_capacity_min(capacity: usize) -> (h: binary_heap_plus::BinaryHeap<
    (u32, usize),
    binary_heap_plus::MinComparator,
>)
    ensures
        spec_heap_contents(h) == Multiset::<(u32, usize)>::empty(),
{
    binary_heap_plus::BinaryHeap::with_capacity_min(capacity)
}

/// Relies on binary_heap_plus::BinaryHeap::push: adds the item to the
/// heap's contents.
#[verifier::external_body]
fn heap_push(
    h: &mut binary_heap_plus::BinaryHeap<(u32, usize), binary_heap_plus::MinComparator>,
    item: (u32, usize),
)
    ensures
        spec_heap_contents(*final(h)) == spec_heap_contents(*old(h)).insert(item),
{
    h.push(item)
}

/// Relies on binary_heap_plus::BinaryHeap::pop with the min-comparator
/// (its `compare` reverses the standard tuple order): removes and
/// returns a least item, or returns `None` exactly when the heap is
/// empty.
#[verifier::external_body]
fn heap_pop(
    h: &mut binary_heap_plus::BinaryHeap<(u32, usize), binary_heap_plus::MinComparator>,
) -> (r: Option<(u32, usize)>)
    ensures
        match r {
            Some(item) => {
                &&& spec_heap_contents(*old(h)).count(item) > 0
                &&& spec_heap_contents(*final(h)) == spec_heap_contents(*old(h)).remove(item)
                &&& forall|other: (u32, usize)|
                    spec_heap_contents(*old(h)).count(other) > 0 ==> spec_key_le(item, other)
            },
            None => {
                &&& spec_heap_contents(*old(h)).len() == 0
                &&& spec_heap_contents(*final(h)) == spec_heap_contents(*old(h))
            },
        },
{
    h.pop()
}

/// One search node: a state with its path cost and its priority.
#[derive(Clone, Copy, Debug)]
pub struct AStarNode<T> {
    pub state: T,
    pub g_cost: u32,
    pub f_cost: u32,
}

impl<T> AStarNode<T> {
    pub fn new(state: T, g_cost: u32, f_cost: u32) -> (n: AStarNode<T>)
        ensures
            n.state == state,
            n.g_cost == g_cost,
            n.f_cost == f_cost,
    {
        AStarNode { state, g_cost, f_cost }
    }
}

/// `b` is a neighbour of `a` with edge cost `c`, as the neighbour
/// function reports it.
pub open spec fn spec_edge<T, FN: Fn(T) -> Vec<(T, u32)>>(nf: FN, a: T, b: T, c: u32) -> bool {
    exists|out: Vec<(T, u32)>| #[trigger] call_ensures(nf, (a,), out) && out@.contains((b, c))
}

/// `b` is a neighbour of `a` at some edge cost.
pub open spec fn spec_connected<T, FN: Fn(T) -> Vec<(T, u32)>>(nf: FN, a: T, b: T) -> bool {
    exists|c: u32| #[trigger] spec_edge(nf, a, b, c)
}

/// The predecessor table is sound: every entry records a valid state
/// at its own index, reached from its valid parent over a real edge;
/// no entry is for the start state; and every parent is the start or
/// has an entry of its own.
pub open spec fn spec_trail_ok<T, FN: Fn(T) -> Vec<(T, u32)>, FI: Fn(T) -> usize>(
    nf: FN,
    idxf: FI,
    start: T,
    valid: spec_fn(T) -> bool,
    entries: Seq<Option<(T, T, u32)>>,
) -> bool {
    forall|i: int|
        0 <= i < entries.len() ==> ((#[trigger] entries[i]) matches Some(e) ==> {
            &&& valid(e.0)
            &&& valid(e.1)
            &&& call_ensures(idxf, (e.0,), i as usize)
            &&& spec_edge(nf, e.1, e.0, e.2)
            &&& e.0 != start
            &&& (e.1 == start || exists|j: int|
                0 <= j < entries.len() && ((#[trigger] entries[j]) matches Some(pe) && pe.0
                    == e.1))
        })
}

/// The state is the start, or the predecessor table has an entry for
/// it.
pub open spec fn spec_node_ok<T>(start: T, entries: Seq<Option<(T, T, u32)>>, state: T) -> bool {
    state == start || exists|j: int|
        0 <= j < entries.len() && ((#[trigger] entries[j]) matches Some(e) && e.0 == state)
}

/// The sum of a sequence of edge costs, as an unbounded integer. The
/// search's cost contract and its termination measure both count it.
pub open spec fn seq_u32_sum(s: Seq<u32>) -> int
    decreases s.len(),
{
    if s.len() == 0 {
        0
    } else {
        seq_u32_sum(s.drop_last()) + s[s.len() - 1]
    }
}

proof fn lemma_sum_nonneg(s: Seq<u32>)
    ensures
        seq_u32_sum(s) >= 0,
    decreases s.len(),
{
    if s.len() > 0 {
        lemma_sum_nonneg(s.drop_last());
    }
}

/// Appending one cost adds it to the sum.
proof fn lemma_sum_push(s: Seq<u32>, v: u32)
    ensures
        seq_u32_sum(s.push(v)) == seq_u32_sum(s) + v,
{
    assert(s.push(v).drop_last() =~= s);
    assert(s.push(v)[s.push(v).len() - 1] == v);
}

/// The sum can be peeled from the front as well as from the back.
proof fn lemma_sum_drop_first(s: Seq<u32>)
    requires
        s.len() >= 1,
    ensures
        seq_u32_sum(s) == s[0] + seq_u32_sum(s.drop_first()),
    decreases s.len(),
{
    if s.len() == 1 {
        assert(s.drop_first() =~= Seq::<u32>::empty());
        assert(s.drop_last() =~= Seq::<u32>::empty());
    } else {
        lemma_sum_drop_first(s.drop_last());
        assert(s.drop_last().drop_first() =~= s.drop_first().drop_last());
        assert(s.drop_last()[0] == s[0]);
        assert(s.drop_first()[s.drop_first().len() - 1] == s[s.len() - 1]);
    }
}

/// Reversing a cost sequence keeps its sum.
proof fn lemma_sum_reversed(a: Seq<u32>, b: Seq<u32>)
    requires
        a.len() == b.len(),
        forall|i: int| 0 <= i < a.len() ==> #[trigger] b[i] == a[a.len() - 1 - i],
    ensures
        seq_u32_sum(a) == seq_u32_sum(b),
    decreases a.len(),
{
    if a.len() > 0 {
        lemma_sum_drop_first(a);
        assert forall|i: int| 0 <= i < a.drop_first().len() implies #[trigger] b.drop_last()[i]
            == a.drop_first()[a.drop_first().len() - 1 - i] by {
            assert(b[i] == a[a.len() - 1 - i]);
        }
        lemma_sum_reversed(a.drop_first(), b.drop_last());
        assert(b[b.len() - 1] == a[0]);
    }
}

/// A prefix of a cost sequence sums to at most the whole.
proof fn lemma_sum_take_le(s: Seq<u32>, m: int)
    requires
        0 <= m <= s.len(),
    ensures
        seq_u32_sum(s.take(m)) <= seq_u32_sum(s),
    decreases s.len() - m,
{
    if m == s.len() {
        assert(s.take(m) =~= s);
    } else {
        lemma_sum_take_le(s, m + 1);
        lemma_sum_take_step(s, m);
    }
}

/// One more step adds exactly that step's cost to the prefix sum.
proof fn lemma_sum_take_step(s: Seq<u32>, m: int)
    requires
        0 <= m < s.len(),
    ensures
        seq_u32_sum(s.take(m + 1)) == seq_u32_sum(s.take(m)) + s[m],
{
    assert(s.take(m + 1).drop_last() =~= s.take(m));
    assert(s.take(m + 1)[m] == s[m]);
}

/// Saturating `u32` addition, as the cost bookkeeping computes it.
pub open spec fn spec_sat_add(a: u32, b: u32) -> u32 {
    if a + b > u32::MAX {
        u32::MAX
    } else {
        (a + b) as u32
    }
}

/// `(b, c)` stands in every answer the neighbour function can give for
/// `a`: an edge the search cannot fail to see.
pub open spec fn spec_edge_always<T, FN: Fn(T) -> Vec<(T, u32)>>(
    nf: FN,
    a: T,
    b: T,
    c: u32,
) -> bool {
    forall|out: Vec<(T, u32)>| #[trigger] call_ensures(nf, (a,), out) ==> out@.contains((b, c))
}

/// The goal test can only answer `true` on `s`.
pub open spec fn spec_goal_sure<T, FG: Fn(T) -> bool>(gf: FG, s: T) -> bool {
    forall|b: bool| #[trigger] call_ensures(gf, (s,), b) ==> b
}

/// A chain the search cannot miss: it starts at `start`, stays inside
/// the valid state space, every step is an edge that every possible
/// neighbour answer lists, and its total cost stays below the `u32`
/// ceiling, so saturation cannot hide it.
pub open spec fn spec_sure_chain<T, FN: Fn(T) -> Vec<(T, u32)>>(
    nf: FN,
    valid: spec_fn(T) -> bool,
    start: T,
    p: Seq<T>,
    cs: Seq<u32>,
) -> bool {
    &&& p.len() == cs.len() + 1
    &&& p[0] == start
    &&& (forall|i: int| 0 <= i < p.len() ==> valid(#[trigger] p[i]))
    &&& (forall|i: int|
        0 <= i < cs.len() ==> #[trigger] spec_edge_always(nf, p[i], p[i + 1], cs[i]))
    &&& seq_u32_sum(cs) < u32::MAX
}

/// `s` still sits on the open set, under a node holding its current
/// best cost.
spec fn spec_on_open<T>(
    hc: Multiset<(u32, usize)>,
    nodes: Seq<AStarNode<T>>,
    s: T,
    gv: u32,
) -> bool {
    exists|it: (u32, usize)|
        #[trigger] hc.count(it) > 0 && it.1 < nodes.len() && nodes[it.1 as int].state == s
            && nodes[it.1 as int].g_cost == gv
}

/// `s` has been expanded at cost `gv`: the goal test answered `false`
/// on it, and every unavoidable edge out of it has been relaxed
/// against `gv`.
spec fn spec_settled<T, FN: Fn(T) -> Vec<(T, u32)>, FG: Fn(T) -> bool, FI: Fn(T) -> usize>(
    nf: FN,
    gf: FG,
    idxf: FI,
    valid: spec_fn(T) -> bool,
    g: Seq<u32>,
    s: T,
    gv: u32,
) -> bool {
    &&& call_ensures(gf, (s,), false)
    &&& (forall|t: T, c: u32|
        #[trigger] spec_edge_always(nf, s, t, c) && valid(t) ==> {
            &&& (exists|j: usize| #[trigger] call_ensures(idxf, (t,), j))
            &&& (forall|j: usize|
                #[trigger] call_ensures(idxf, (t,), j) ==> j < g.len() && g[j as int]
                    <= spec_sat_add(gv, c))
        })
}

/// Every reached state, but for the one being expanded, is on the open
/// set at its current cost or settled at it.
spec fn spec_reached_covered<
    T,
    FN: Fn(T) -> Vec<(T, u32)>,
    FG: Fn(T) -> bool,
    FI: Fn(T) -> usize,
>(
    nf: FN,
    gf: FG,
    idxf: FI,
    valid: spec_fn(T) -> bool,
    hc: Multiset<(u32, usize)>,
    nodes: Seq<AStarNode<T>>,
    g: Seq<u32>,
    except: Option<T>,
) -> bool {
    forall|s: T, i: usize|
        valid(s) && #[trigger] call_ensures(idxf, (s,), i) && i < g.len() && g[i as int]
            < u32::MAX && except != Some(s) ==> spec_on_open(hc, nodes, s, g[i as int])
            || spec_settled(nf, gf, idxf, valid, g, s, g[i as int])
}

/// The bookkeeping prices are consistent: each predecessor entry costs
/// at least its parent plus the recorded edge, and the pair of cost
/// and stamp strictly decreases toward the start, so the recorded
/// trails are acyclic and their summed costs bounded by the entry's
/// own cost.
spec fn spec_trail_measure_ok<T, FI: Fn(T) -> usize>(
    idxf: FI,
    start: T,
    entries: Seq<Option<(T, T, u32)>>,
    g: Seq<u32>,
    nu: Seq<int>,
) -> bool {
    forall|i: int|
        0 <= i < entries.len() ==> ((#[trigger] entries[i]) matches Some(e) ==> {
            &&& g[i] < u32::MAX
            &&& nu[i] >= 1
            &&& (forall|j: usize|
                #[trigger] call_ensures(idxf, (e.1,), j) ==> j < entries.len() && g[j as int]
                    + e.2 <= g[i] && (g[j as int] < g[i] || nu[j as int] < nu[i]) && (e.1 == start
                    || entries[j as int] is Some))
        })
}

/// One produced neighbour pair has been relaxed: its state carries an
/// index, and its cost entry is at most the expanding state's cost
/// plus the edge cost.
spec fn spec_pair_relaxed<T, FI: Fn(T) -> usize>(
    idxf: FI,
    g: Seq<u32>,
    max_states: usize,
    gc: u32,
    pr: (T, u32),
) -> bool {
    &&& (exists|j: usize| #[trigger] call_ensures(idxf, (pr.0,), j))
    &&& (forall|j: usize|
        #[trigger] call_ensures(idxf, (pr.0,), j) ==> j < max_states && g[j as int]
            <= spec_sat_add(gc, pr.1))
}

/// Following a sure chain, every state on it stays reached within the
/// cost ceiling once every reached state is settled; the chain's
/// states all carry an index, priced by the prefix sums.
proof fn lemma_sure_chain_reached<
    T,
    FN: Fn(T) -> Vec<(T, u32)>,
    FG: Fn(T) -> bool,
    FI: Fn(T) -> usize,
>(
    nf: FN,
    gf: FG,
    idxf: FI,
    valid: spec_fn(T) -> bool,
    start: T,
    si: usize,
    g: Seq<u32>,
    p: Seq<T>,
    cs: Seq<u32>,
    k: int,
)
    requires
        spec_sure_chain(nf, valid, start, p, cs),
        0 <= k < p.len(),
        si < g.len(),
        call_ensures(idxf, (start,), si),
        g[si as int] == 0,
        forall|s: T, i1: usize, i2: usize|
            #![trigger call_ensures(idxf, (s,), i1), call_ensures(idxf, (s,), i2)]
            valid(s) && call_ensures(idxf, (s,), i1) && call_ensures(idxf, (s,), i2) ==> i1 == i2,
        forall|s: T, i: usize|
            valid(s) && #[trigger] call_ensures(idxf, (s,), i) && i < g.len() && g[i as int]
                < u32::MAX ==> spec_settled(nf, gf, idxf, valid, g, s, g[i as int]),
    ensures
        exists|j: usize| #[trigger] call_ensures(idxf, (p[k],), j),
        forall|j: usize|
            #[trigger] call_ensures(idxf, (p[k],), j) ==> j < g.len() && g[j as int]
                <= seq_u32_sum(cs.take(k)),
    decreases k,
{
    lemma_sum_take_le(cs, k);
    lemma_sum_nonneg(cs.take(k));
    if k == 0 {
        assert(cs.take(0) =~= Seq::<u32>::empty());
        assert forall|j: usize| #[trigger] call_ensures(idxf, (p[0],), j) implies j < g.len()
            && g[j as int] <= seq_u32_sum(cs.take(0)) by {
            assert(valid(start));
            assert(j == si);
        }
    } else {
        lemma_sure_chain_reached(nf, gf, idxf, valid, start, si, g, p, cs, k - 1);
        lemma_sum_take_le(cs, k - 1);
        lemma_sum_nonneg(cs.take(k - 1));
        lemma_sum_take_step(cs, k - 1);
        let jp = choose|j: usize| #[trigger] call_ensures(idxf, (p[k - 1],), j);
        assert(g[jp as int] <= seq_u32_sum(cs.take(k - 1)));
        assert(spec_settled(nf, gf, idxf, valid, g, p[k - 1], g[jp as int]));
        assert(spec_edge_always(nf, p[k - 1], p[k], cs[k - 1]));
        assert(valid(p[k]));
        assert forall|j: usize| #[trigger] call_ensures(idxf, (p[k],), j) implies j < g.len()
            && g[j as int] <= seq_u32_sum(cs.take(k)) by {
            assert(g[j as int] <= spec_sat_add(g[jp as int], cs[k - 1]));
        }
    }
}

proof fn lemma_sum_update(s: Seq<u32>, i: int, v: u32)
    requires
        0 <= i < s.len(),
    ensures
        seq_u32_sum(s.update(i, v)) == seq_u32_sum(s) - s[i] + v,
    decreases s.len(),
{
    let t = s.update(i, v);
    if i == s.len() - 1 {
        assert(t.drop_last() =~= s.drop_last());
    } else {
        assert(t.drop_last() =~= s.drop_last().update(i, v));
        lemma_sum_update(s.drop_last(), i, v);
    }
}

/// Best-first search from `start` over the states that `neighbors_fn`
/// generates, with priorities `g + heuristic`, until `goal_fn` accepts
/// a popped state or the open set runs dry.
///
/// `valid` is the ghost state space the caller searches: the start
/// belongs to it, the neighbour function keeps it closed, and on it
/// `index_fn` maps every state to a distinct slot below `max_states`.
/// The index replaces hashing, so the bookkeeping lives in plain
/// vectors and node records in a growable pool, freed in bulk when the
/// search returns. Cost additions saturate, so a cost overflow can only
/// make a path look no better than it is; it cannot wrap around or
/// abort.
///
/// A returned path starts at `start`, ends in a state the goal
/// predicate accepted, every consecutive pair is an edge that
/// `neighbors_fn` reported, and the returned cost is the sum of those
/// edges' costs. When the goal test can only accept the start, the
/// result is exactly the one-state path at cost zero. `None` is owed
/// only to unreachable goals: whenever a chain of unavoidable edges
/// within the cost ceiling leads from `start` to a state the goal test
/// must accept, the search returns some path. Ties in the open set are
/// broken by node index, so equal runs pop in equal order.
#[verifier::loop_isolation(false)]
#[verifier::rlimit(100)]
pub fn optimized_astar<T, FN, FH, FG, FI>(
    start: T,
    max_states: usize,
    neighbors_fn: FN,
    heuristic_fn: FH,
    goal_fn: FG,
    index_fn: FI,
    valid: Ghost<spec_fn(T) -> bool>,
) -> (r: Option<(Vec<T>, u32)>) where
    T: Copy,
    FN: Fn(T) -> Vec<(T, u32)>,
    FH: Fn(T) -> u32,
    FG: Fn(T) -> bool,
    FI: Fn(T) -> usize,

    requires
        valid@(start),
        forall|s: T| #[trigger] call_requires(neighbors_fn, (s,)),
        forall|s: T| #[trigger] call_requires(heuristic_fn, (s,)),
        forall|s: T| #[trigger] call_requires(goal_fn, (s,)),
        forall|s: T| #[trigger] call_requires(index_fn, (s,)),
        forall|s: T, i: usize|
            valid@(s) && #[trigger] call_ensures(index_fn, (s,), i) ==> i < max_states,
        forall|s: T, i1: usize, i2: usize|
            #![trigger call_ensures(index_fn, (s,), i1), call_ensures(index_fn, (s,), i2)]
            valid@(s) && call_ensures(index_fn, (s,), i1) && call_ensures(index_fn, (s,), i2)
                ==> i1 == i2,
        forall|s1: T, s2: T, i1: usize, i2: usize|
            #![trigger call_ensures(index_fn, (s1,), i1), call_ensures(index_fn, (s2,), i2)]
            valid@(s1) && valid@(s2) && call_ensures(index_fn, (s1,), i1) && call_ensures(
                index_fn,
                (s2,),
                i2,
            ) && i1 == i2 ==> s1 == s2,
        forall|s: T, out: Vec<(T, u32)>, k: int|
            #![trigger call_ensures(neighbors_fn, (s,), out), out@[k]]
            valid@(s) && call_ensures(neighbors_fn, (s,), out) && 0 <= k < out@.len() ==> valid@(
                out@[k].0,
            ),
    ensures
        r matches Some(pc) ==> {
            &&& pc.0@.len() >= 1
            &&& pc.0@[0] == start
            &&& call_ensures(goal_fn, (pc.0@[pc.0@.len() - 1],), true)
            &&& (forall|i: int|
                0 <= i < pc.0@.len() - 1 ==> spec_connected(
                    neighbors_fn,
                    pc.0@[i],
                    #[trigger] pc.0@[i + 1],
                ))
            &&& exists|cs: Seq<u32>|
                {
                    &&& cs.len() == pc.0@.len() - 1
                    &&& (forall|i: int|
                        0 <= i < cs.len() ==> spec_edge(
                            neighbors_fn,
                            pc.0@[i],
                            pc.0@[i + 1],
                            #[trigger] cs[i],
                        ))
                    &&& pc.1 == seq_u32_sum(cs)
                }
        },
        spec_goal_sure(goal_fn, start) ==> (r matches Some(pc) && pc.0@ == seq![start] && pc.1
            == 0),
        forall|p: Seq<T>, cs: Seq<u32>|
            #[trigger] spec_sure_chain(neighbors_fn, valid@, start, p, cs) && spec_goal_sure(
                goal_fn,
                p[p.len() - 1],
            ) ==> r is Some,
{
    let mut heap = heap_with_capacity_min(max_states);
    let mut nodes: Vec<AStarNode<T>> = Vec::with_capacity(max_states);
    let mut came_from: Vec<Option<(T, T, u32)>> = Vec::with_capacity(max_states);
    let mut g_score: Vec<u32> = Vec::with_capacity(max_states);
    let mut k: usize = 0;
    while k < max_states
        invariant
            k <= max_states,
            came_from@.len() == k,
            g_score@.len() == k,
            forall|i: int| 0 <= i < k ==> (#[trigger] came_from@[i]) is None,
            forall|i: int| 0 <= i < k ==> (#[trigger] g_score@[i]) == u32::MAX,
        decreases max_states - k,
    {
        came_from.push(None);
        g_score.push(u32::MAX);
        k += 1;
    }
    if goal_fn(start) {
        let mut path: Vec<T> = Vec::new();
        path.push(start);
        proof {
            let cs0 = Seq::<u32>::empty();
            assert(seq_u32_sum(cs0) == 0);
            assert(path@ =~= seq![start]);
        }
        return Some((path, 0));
    }
    let ghost mut nu: Seq<int> = Seq::new(max_states as nat, |i: int| 0);
    let h0 = heuristic_fn(start);
    nodes.push(AStarNode::new(start, 0, h0));
    heap_push(&mut heap, (h0, 0));
    let si = index_fn(start);
    g_score.set(si, 0);
    proof {
        assert forall|s: T, i: usize|
            valid@(s) && #[trigger] call_ensures(index_fn, (s,), i) && i < max_states
                && g_score@[i as int] < u32::MAX && None::<T> != Some(s) implies spec_on_open(
            spec_heap_contents(heap),
            nodes@,
            s,
            g_score@[i as int],
        ) || spec_settled(
            neighbors_fn,
            goal_fn,
            index_fn,
            valid@,
            g_score@,
            s,
            g_score@[i as int],
        ) by {
            assert(i == si);
            assert(s == start);
            assert(spec_heap_contents(heap).count((h0, 0)) > 0);
            assert(nodes@[0].state == start && nodes@[0].g_cost == 0);
            assert(spec_on_open(spec_heap_contents(heap), nodes@, s, g_score@[i as int]));
        }
    }
    loop
        invariant
            g_score@.len() == max_states,
            came_from@.len() == max_states,
            nu.len() == max_states,
            si < max_states,
            call_ensures(index_fn, (start,), si),
            g_score@[si as int] == 0,
            nu[si as int] == 0,
            forall|i: int| 0 <= i < max_states ==> #[trigger] nu[i] >= 0,
            call_ensures(goal_fn, (start,), false),
            spec_trail_ok(neighbors_fn, index_fn, start, valid@, came_from@),
            spec_trail_measure_ok(index_fn, start, came_from@, g_score@, nu),
            spec_reached_covered(
                neighbors_fn,
                goal_fn,
                index_fn,
                valid@,
                spec_heap_contents(heap),
                nodes@,
                g_score@,
                None::<T>,
            ),
            forall|it: (u32, usize)|
                spec_heap_contents(heap).count(it) > 0 ==> it.1 < nodes@.len(),
            forall|kk: int|
                0 <= kk < nodes@.len() ==> spec_node_ok(
                    start,
                    came_from@,
                    (#[trigger] nodes@[kk]).state,
                ),
            forall|kk: int| 0 <= kk < nodes@.len() ==> valid@((#[trigger] nodes@[kk]).state),
        decreases 2 * seq_u32_sum(g_score@) + spec_heap_contents(heap).len(),
    {
        proof {
            lemma_sum_nonneg(g_score@);
        }
        let ghost m0 = 2 * seq_u32_sum(g_score@) + spec_heap_contents(heap).len();
        let ghost hc0 = spec_heap_contents(heap);
        match heap_pop(&mut heap) {
            None => {
                proof {
                    let hc = spec_heap_contents(heap);
                    assert forall|s: T, i: usize|
                        valid@(s) && #[trigger] call_ensures(index_fn, (s,), i) && i < max_states
                            && g_score@[i as int] < u32::MAX implies spec_settled(
                        neighbors_fn,
                        goal_fn,
                        index_fn,
                        valid@,
                        g_score@,
                        s,
                        g_score@[i as int],
                    ) by {
                        if spec_on_open(hc, nodes@, s, g_score@[i as int]) {
                            let it = choose|it: (u32, usize)|
                                #[trigger] hc.count(it) > 0 && it.1 < nodes@.len()
                                    && nodes@[it.1 as int].state == s && nodes@[it.1 as int].g_cost
                                    == g_score@[i as int];
                            assert(hc.count(it) <= hc.len());
                            assert(false);
                        }
                    }
                    assert forall|p: Seq<T>, cs: Seq<u32>|
                        #[trigger] spec_sure_chain(neighbors_fn, valid@, start, p, cs)
                            && spec_goal_sure(goal_fn, p[p.len() - 1]) implies false by {
                        lemma_sure_chain_reached(
                            neighbors_fn,
                            goal_fn,
                            index_fn,
                            valid@,
                            start,
                            si,
                            g_score@,
                            p,
                            cs,
                            p.len() - 1,
                        );
                        let j = choose|j: usize| #[trigger] call_ensures(index_fn, (p[p.len() - 1],), j);
                        assert(cs.take(p.len() - 1) =~= cs);
                        assert(g_score@[j as int] <= seq_u32_sum(cs));
                        assert(spec_settled(
                            neighbors_fn,
                            goal_fn,
                            index_fn,
                            valid@,
                            g_score@,
                            p[p.len() - 1],
                            g_score@[j as int],
                        ));
                        assert(call_ensures(goal_fn, (p[p.len() - 1],), false));
                    }
                    assert(!spec_goal_sure(goal_fn, start));
                }
                return None;
            },
            Some(item) => {
                let idx = item.1;
                let current = *(&nodes[idx]);
                let cur_state = current.state;
                let ghost hc_popped = spec_heap_contents(heap);
                proof {
                    assert(valid@(cur_state));
                    assert forall|s: T, i: usize|
                        valid@(s) && #[trigger] call_ensures(index_fn, (s,), i) && i < max_states
                            && g_score@[i as int] < u32::MAX && Some(cur_state) != Some(
                        s,
                    ) implies spec_on_open(hc_popped, nodes@, s, g_score@[i as int])
                        || spec_settled(
                        neighbors_fn,
                        goal_fn,
                        index_fn,
                        valid@,
                        g_score@,
                        s,
                        g_score@[i as int],
                    ) by {
                        if spec_on_open(hc0, nodes@, s, g_score@[i as int]) {
                            let it = choose|it: (u32, usize)|
                                #[trigger] hc0.count(it) > 0 && it.1 < nodes@.len()
                                    && nodes@[it.1 as int].state == s && nodes@[it.1 as int].g_cost
                                    == g_score@[i as int];
                            assert(it != item);
                            assert(hc_popped.count(it) > 0);
                            assert(spec_on_open(hc_popped, nodes@, s, g_score@[i as int]));
                        }
                    }
                }
                if goal_fn(cur_state) {
                    let start_idx = index_fn(cur_state);
                    let ghost gcap = g_score@[start_idx as int];
                    let mut rev: Vec<T> = Vec::new();
                    rev.push(cur_state);
                    let mut cur: T = cur_state;
                    let mut total: u32 = 0;
                    let ghost mut cs_rev: Seq<u32> = Seq::empty();
                    let ghost mut cur_idx: usize = start_idx;
                    #[verifier::loop_isolation(true)]
                    loop
                        invariant
                            came_from@.len() == max_states,
                            g_score@.len() == max_states,
                            nu.len() == max_states,
                            si < max_states,
                            valid@(start),
                            call_ensures(index_fn, (start,), si),
                            g_score@[si as int] == 0,
                            nu[si as int] == 0,
                            forall|i: int| 0 <= i < max_states ==> #[trigger] nu[i] >= 0,
                            spec_trail_ok(neighbors_fn, index_fn, start, valid@, came_from@),
                            spec_trail_measure_ok(index_fn, start, came_from@, g_score@, nu),
                            forall|s: T| #[trigger] call_requires(index_fn, (s,)),
                            forall|s: T, i: usize|
                                valid@(s) && #[trigger] call_ensures(index_fn, (s,), i) ==> i
                                    < max_states,
                            forall|s: T, i1: usize, i2: usize|
                                #![trigger call_ensures(index_fn, (s,), i1), call_ensures(index_fn, (s,), i2)]
                                valid@(s) && call_ensures(index_fn, (s,), i1) && call_ensures(
                                    index_fn,
                                    (s,),
                                    i2,
                                ) ==> i1 == i2,
                            rev@.len() >= 1,
                            rev@[0] == cur_state,
                            rev@[rev@.len() - 1] == cur,
                            valid@(cur),
                            spec_node_ok(start, came_from@, cur),
                            call_ensures(index_fn, (cur,), cur_idx),
                            cur_idx < max_states,
                            cs_rev.len() == rev@.len() - 1,
                            seq_u32_sum(cs_rev) == total,
                            total as int + g_score@[cur_idx as int] <= gcap as int,
                            forall|k2: int|
                                0 <= k2 < rev@.len() - 1 ==> spec_edge(
                                    neighbors_fn,
                                    #[trigger] rev@[k2 + 1],
                                    rev@[k2],
                                    cs_rev[k2],
                                ),
                        ensures
                            rev@.len() >= 1,
                            rev@[0] == cur_state,
                            rev@[rev@.len() - 1] == start,
                            cs_rev.len() == rev@.len() - 1,
                            seq_u32_sum(cs_rev) == total,
                            forall|k2: int|
                                0 <= k2 < rev@.len() - 1 ==> spec_edge(
                                    neighbors_fn,
                                    #[trigger] rev@[k2 + 1],
                                    rev@[k2],
                                    cs_rev[k2],
                                ),
                        decreases g_score@[cur_idx as int], nu[cur_idx as int],
                    {
                        let i2 = index_fn(cur);
                        proof {
                            assert(i2 == cur_idx);
                        }
                        match *(&came_from[i2]) {
                            None => {
                                proof {
                                    if cur != start {
                                        let j = choose|j: int|
                                            0 <= j < came_from@.len() && ((#[trigger] came_from@[j]) matches Some(
                                                e,
                                            ) && e.0 == cur);
                                        assert(came_from@[j] is Some);
                                        let e = came_from@[j]->Some_0;
                                        assert(e.0 == cur);
                                        assert(call_ensures(index_fn, (e.0,), j as usize));
                                        assert(j == i2 as int);
                                        assert(false);
                                    }
                                }
                                break ;
                            },
                            Some(e) => {
                                let ghost old_cs = cs_rev;
                                proof {
                                    assert(came_from@[i2 as int] is Some && came_from@[i2 as int]
                                        -> Some_0 == e);
                                    assert(call_ensures(index_fn, (e.0,), i2));
                                    assert(e.0 == cur);
                                    assert(spec_edge(neighbors_fn, e.1, cur, e.2));
                                    assert(spec_node_ok(start, came_from@, e.1));
                                    assert(valid@(e.1));
                                    let pj: usize = if e.1 == start {
                                        si
                                    } else {
                                        let jj = choose|jj: int|
                                            0 <= jj < came_from@.len() && ((#[trigger] came_from@[jj]) matches Some(
                                                pe,
                                            ) && pe.0 == e.1);
                                        assert(call_ensures(
                                            index_fn,
                                            ((came_from@[jj]->Some_0).0,),
                                            jj as usize,
                                        ));
                                        jj as usize
                                    };
                                    assert(call_ensures(index_fn, (e.1,), pj));
                                    assert(pj < max_states && g_score@[pj as int] + e.2
                                        <= g_score@[i2 as int] && (g_score@[pj as int]
                                        < g_score@[i2 as int] || nu[pj as int] < nu[i2 as int]));
                                    cur_idx = pj;
                                    cs_rev = cs_rev.push(e.2);
                                    lemma_sum_push(old_cs, e.2);
                                }
                                rev.push(e.1);
                                total = total + e.2;
                                cur = e.1;
                            },
                        }
                    }
                    let mut path: Vec<T> = Vec::new();
                    let mut t: usize = rev.len();
                    while t > 0
                        invariant
                            t <= rev@.len(),
                            path@.len() == rev@.len() - t,
                            forall|j: int|
                                0 <= j < path@.len() ==> #[trigger] path@[j] == rev@[rev@.len() - 1
                                    - j],
                        decreases t,
                    {
                        t -= 1;
                        path.push(*(&rev[t]));
                    }
                    proof {
                        let ln = rev@.len() as int;
                        assert(path@.len() == ln);
                        assert(path@[0] == rev@[ln - 1]);
                        assert(path@[ln - 1] == rev@[0]);
                        let cs = Seq::new(cs_rev.len(), |i: int| cs_rev[cs_rev.len() - 1 - i]);
                        lemma_sum_reversed(cs_rev, cs);
                        assert forall|i: int| 0 <= i < cs.len() implies spec_edge(
                            neighbors_fn,
                            path@[i],
                            path@[i + 1],
                            #[trigger] cs[i],
                        ) by {
                            assert(path@[i] == rev@[ln - 1 - i]);
                            assert(path@[i + 1] == rev@[ln - 1 - (i + 1)]);
                            assert(cs[i] == cs_rev[ln - 2 - i]);
                            assert(spec_edge(
                                neighbors_fn,
                                rev@[(ln - 2 - i) + 1],
                                rev@[ln - 2 - i],
                                cs_rev[ln - 2 - i],
                            ));
                        }
                        assert forall|i: int| 0 <= i < path@.len() - 1 implies spec_connected(
                            neighbors_fn,
                            path@[i],
                            #[trigger] path@[i + 1],
                        ) by {
                            assert(spec_edge(neighbors_fn, path@[i], path@[i + 1], cs[i]));
                        }
                        assert(cs.len() == path@.len() - 1 && seq_u32_sum(cs) == total);
                        assert(!spec_goal_sure(goal_fn, start));
                    }
                    return Some((path, total));
                }
                let ci = index_fn(cur_state);
                let gc = *(&g_score[ci]);
                let neigh = neighbors_fn(cur_state);
                let ghost m_entry = 2 * seq_u32_sum(g_score@) + spec_heap_contents(heap).len();
                proof {
                    assert(Multiset::singleton(item).subset_of(hc0)) by {
                        assert forall|v: (u32, usize)|
                            Multiset::singleton(item).count(v) <= hc0.count(v) by {
                            if v == item {
                                assert(Multiset::singleton(item).count(v) == 1);
                            } else {
                                assert(Multiset::singleton(item).count(v) == 0);
                            }
                        }
                    }
                    assert(spec_heap_contents(heap).len() == hc0.len() - 1);
                    assert(m_entry < m0);
                }
                let mut q: usize = 0;
                while q < neigh.len()
                    invariant
                        q <= neigh@.len(),
                        g_score@.len() == max_states,
                        came_from@.len() == max_states,
                        nu.len() == max_states,
                        g_score@[si as int] == 0,
                        nu[si as int] == 0,
                        forall|i: int| 0 <= i < max_states ==> #[trigger] nu[i] >= 0,
                        ci < max_states,
                        call_ensures(index_fn, (cur_state,), ci),
                        g_score@[ci as int] == gc,
                        call_ensures(goal_fn, (cur_state,), false),
                        spec_trail_ok(neighbors_fn, index_fn, start, valid@, came_from@),
                        spec_trail_measure_ok(index_fn, start, came_from@, g_score@, nu),
                        spec_reached_covered(
                            neighbors_fn,
                            goal_fn,
                            index_fn,
                            valid@,
                            spec_heap_contents(heap),
                            nodes@,
                            g_score@,
                            Some(cur_state),
                        ),
                        forall|k2: int|
                            0 <= k2 < q ==> spec_pair_relaxed(
                                index_fn,
                                g_score@,
                                max_states,
                                gc,
                                #[trigger] neigh@[k2],
                            ),
                        forall|it: (u32, usize)|
                            spec_heap_contents(heap).count(it) > 0 ==> it.1 < nodes@.len(),
                        forall|kk: int|
                            0 <= kk < nodes@.len() ==> spec_node_ok(
                                start,
                                came_from@,
                                (#[trigger] nodes@[kk]).state,
                            ),
                        forall|kk: int|
                            0 <= kk < nodes@.len() ==> valid@((#[trigger] nodes@[kk]).state),
                        spec_node_ok(start, came_from@, cur_state),
                        valid@(cur_state),
                        call_ensures(neighbors_fn, (cur_state,), neigh),
                        2 * seq_u32_sum(g_score@) + spec_heap_contents(heap).len() <= m_entry,
                    decreases neigh@.len() - q,
                {
                    let pair = *(&neigh[q]);
                    let neighbor = pair.0;
                    let move_cost = pair.1;
                    proof {
                        assert(neigh@[q as int] == pair);
                        assert(valid@(neighbor));
                    }
                    let tentative = gc.saturating_add(move_cost);
                    let ni = index_fn(neighbor);
                    let gn = *(&g_score[ni]);
                    if tentative < gn {
                        proof {
                            if neighbor == start {
                                assert(ni == si);
                                assert(gn == 0);
                            }
                            assert(ni != ci) by {
                                if ni == ci {
                                    assert(neighbor == cur_state);
                                    assert(gn == gc);
                                    assert(tentative >= gc);
                                }
                            }
                            lemma_sum_update(g_score@, ni as int, tentative);
                            assert(neigh@.contains((neighbor, move_cost)));
                        }
                        let ghost old_trail = came_from@;
                        let ghost old_g = g_score@;
                        let ghost old_nu = nu;
                        let ghost old_nodes = nodes@;
                        let ghost old_heap = spec_heap_contents(heap);
                        came_from.set(ni, Some((neighbor, cur_state, move_cost)));
                        g_score.set(ni, tentative);
                        proof {
                            nu = nu.update(ni as int, nu[ci as int] + 1);
                        }
                        let hn = heuristic_fn(neighbor);
                        let f = tentative.saturating_add(hn);
                        let node_idx = nodes.len();
                        nodes.push(AStarNode::new(neighbor, tentative, f));
                        heap_push(&mut heap, (f, node_idx));
                        proof {
                            if old_trail[ni as int] is Some {
                                let olde = old_trail[ni as int]->Some_0;
                                assert(call_ensures(index_fn, (olde.0,), ni));
                                assert(olde.0 == neighbor);
                            }
                            assert(spec_edge(neighbors_fn, cur_state, neighbor, move_cost));
                            assert forall|i: int|
                                0 <= i < came_from@.len() && (#[trigger] came_from@[i]) is Some implies {
                                let e = came_from@[i]->Some_0;
                                &&& valid@(e.0)
                                &&& valid@(e.1)
                                &&& call_ensures(index_fn, (e.0,), i as usize)
                                &&& spec_edge(neighbors_fn, e.1, e.0, e.2)
                                &&& e.0 != start
                                &&& (e.1 == start || exists|j: int|
                                    0 <= j < came_from@.len() && ((#[trigger] came_from@[j]) matches Some(
                                        pe,
                                    ) && pe.0 == e.1))
                            } by {
                                let e = came_from@[i]->Some_0;
                                if i == ni as int {
                                    assert(e.0 == neighbor && e.1 == cur_state && e.2 == move_cost);
                                    assert(spec_node_ok(start, old_trail, cur_state));
                                    if cur_state != start {
                                        let j = choose|j: int|
                                            0 <= j < old_trail.len() && ((#[trigger] old_trail[j]) matches Some(
                                                pe,
                                            ) && pe.0 == cur_state);
                                        if j == ni as int {
                                            assert(came_from@[ni as int] is Some && (came_from@[ni as int]
                                                -> Some_0).0 == neighbor);
                                            assert((old_trail[j]->Some_0).0 == neighbor);
                                        } else {
                                            assert(came_from@[j] == old_trail[j]);
                                            assert(came_from@[j] is Some && (came_from@[j]
                                                -> Some_0).0 == cur_state);
                                        }
                                    }
                                } else {
                                    assert(old_trail[i] == came_from@[i]);
                                    let olde2 = old_trail[i]->Some_0;
                                    assert(olde2 == e);
                                    assert(call_ensures(index_fn, (e.0,), i as usize));
                                    assert(spec_edge(neighbors_fn, e.1, e.0, e.2));
                                    assert(e.0 != start);
                                    if e.1 != start {
                                        let j = choose|j: int|
                                            0 <= j < old_trail.len() && ((#[trigger] old_trail[j]) matches Some(
                                                pe,
                                            ) && pe.0 == e.1);
                                        if j == ni as int {
                                            assert((old_trail[j]->Some_0).0 == neighbor);
                                            assert(came_from@[ni as int] is Some && (came_from@[ni as int]
                                                -> Some_0).0 == neighbor);
                                            assert(e.1 == neighbor);
                                        } else {
                                            assert(came_from@[j] == old_trail[j]);
                                            assert(came_from@[j] is Some && (came_from@[j]
                                                -> Some_0).0 == e.1);
                                        }
                                    }
                                }
                            }
                            assert(spec_trail_ok(
                                neighbors_fn,
                                index_fn,
                                start,
                                valid@,
                                came_from@,
                            ));
                            assert forall|kk: int|
                                0 <= kk < nodes@.len() implies spec_node_ok(
                                start,
                                came_from@,
                                (#[trigger] nodes@[kk]).state,
                            ) by {
                                let st = nodes@[kk].state;
                                if kk == nodes@.len() - 1 {
                                    assert(came_from@[ni as int] is Some && (came_from@[ni as int]
                                        -> Some_0).0 == st);
                                } else {
                                    assert(spec_node_ok(start, old_trail, st));
                                    if st != start {
                                        let j = choose|j: int|
                                            0 <= j < old_trail.len() && ((#[trigger] old_trail[j]) matches Some(
                                                pe,
                                            ) && pe.0 == st);
                                        if j == ni as int {
                                            assert((old_trail[j]->Some_0).0 == neighbor);
                                            assert(came_from@[ni as int] is Some && (came_from@[ni as int]
                                                -> Some_0).0 == st);
                                        } else {
                                            assert(came_from@[j] == old_trail[j]);
                                            assert(came_from@[j] is Some && (came_from@[j]
                                                -> Some_0).0 == st);
                                        }
                                    }
                                }
                            }
                            assert(tentative == gc + move_cost);
                            assert forall|i: int|
                                0 <= i < came_from@.len() && (#[trigger] came_from@[i]) is Some implies {
                                let e = came_from@[i]->Some_0;
                                &&& g_score@[i] < u32::MAX
                                &&& nu[i] >= 1
                                &&& (forall|j: usize|
                                    #[trigger] call_ensures(index_fn, (e.1,), j) ==> j < max_states
                                        && g_score@[j as int] + e.2 <= g_score@[i] && (
                                    g_score@[j as int] < g_score@[i] || nu[j as int] < nu[i]) && (
                                    e.1 == start || came_from@[j as int] is Some))
                            } by {
                                let e = came_from@[i]->Some_0;
                                if i == ni as int {
                                    assert(e.0 == neighbor && e.1 == cur_state && e.2 == move_cost);
                                    assert(g_score@[i] == tentative && nu[i] == old_nu[ci as int]
                                        + 1);
                                    assert forall|j: usize|
                                        #[trigger] call_ensures(index_fn, (e.1,), j) implies j
                                        < max_states && g_score@[j as int] + e.2 <= g_score@[i] && (
                                    g_score@[j as int] < g_score@[i] || nu[j as int] < nu[i]) && (
                                    e.1 == start || came_from@[j as int] is Some) by {
                                        assert(j == ci);
                                        assert(g_score@[ci as int] == gc && nu[ci as int]
                                            == old_nu[ci as int]);
                                        if e.1 != start {
                                            assert(spec_node_ok(start, old_trail, cur_state));
                                            let jj = choose|jj: int|
                                                0 <= jj < old_trail.len() && ((#[trigger] old_trail[jj]) matches Some(
                                                    pe,
                                                ) && pe.0 == cur_state);
                                            assert(call_ensures(
                                                index_fn,
                                                ((old_trail[jj]->Some_0).0,),
                                                jj as usize,
                                            ));
                                            assert(jj as usize == ci);
                                            assert(came_from@[ci as int] is Some);
                                        }
                                    }
                                } else {
                                    assert(came_from@[i] == old_trail[i]);
                                    let olde2 = old_trail[i]->Some_0;
                                    assert(olde2 == e);
                                    assert(g_score@[i] == old_g[i] && nu[i] == old_nu[i]);
                                    assert forall|j: usize|
                                        #[trigger] call_ensures(index_fn, (e.1,), j) implies j
                                        < max_states && g_score@[j as int] + e.2 <= g_score@[i] && (
                                    g_score@[j as int] < g_score@[i] || nu[j as int] < nu[i]) && (
                                    e.1 == start || came_from@[j as int] is Some) by {
                                        assert(old_g[j as int] + e.2 <= old_g[i] && (
                                        old_g[j as int] < old_g[i] || old_nu[j as int]
                                            < old_nu[i]) && (e.1 == start || old_trail[j as int] is Some));
                                        if j == ni {
                                            assert(g_score@[j as int] == tentative);
                                            assert(tentative < old_g[ni as int]);
                                            assert(came_from@[ni as int] is Some);
                                        } else {
                                            assert(g_score@[j as int] == old_g[j as int]
                                                && nu[j as int] == old_nu[j as int]);
                                            if old_trail[j as int] is Some {
                                                assert(came_from@[j as int] == old_trail[j as int]);
                                            }
                                        }
                                    }
                                }
                            }
                            assert(spec_trail_measure_ok(
                                index_fn,
                                start,
                                came_from@,
                                g_score@,
                                nu,
                            ));
                            let hc_new = spec_heap_contents(heap);
                            assert forall|s: T, i: usize|
                                valid@(s) && #[trigger] call_ensures(index_fn, (s,), i) && i
                                    < max_states && g_score@[i as int] < u32::MAX && Some(cur_state)
                                    != Some(s) implies spec_on_open(
                                hc_new,
                                nodes@,
                                s,
                                g_score@[i as int],
                            ) || spec_settled(
                                neighbors_fn,
                                goal_fn,
                                index_fn,
                                valid@,
                                g_score@,
                                s,
                                g_score@[i as int],
                            ) by {
                                if i == ni {
                                    assert(s == neighbor);
                                    assert(hc_new.count((f, node_idx)) > 0);
                                    assert(nodes@[node_idx as int].state == neighbor
                                        && nodes@[node_idx as int].g_cost == tentative);
                                    assert(spec_on_open(hc_new, nodes@, s, g_score@[i as int]));
                                } else {
                                    assert(g_score@[i as int] == old_g[i as int]);
                                    if spec_on_open(old_heap, old_nodes, s, old_g[i as int]) {
                                        let it = choose|it: (u32, usize)|
                                            #[trigger] old_heap.count(it) > 0 && it.1
                                                < old_nodes.len() && old_nodes[it.1 as int].state
                                                == s && old_nodes[it.1 as int].g_cost
                                                == old_g[i as int];
                                        assert(hc_new.count(it) > 0);
                                        assert(nodes@[it.1 as int] == old_nodes[it.1 as int]);
                                        assert(spec_on_open(hc_new, nodes@, s, g_score@[i as int]));
                                    } else {
                                        assert(spec_settled(
                                            neighbors_fn,
                                            goal_fn,
                                            index_fn,
                                            valid@,
                                            old_g,
                                            s,
                                            old_g[i as int],
                                        ));
                                        assert forall|t: T, c: u32|
                                            #[trigger] spec_edge_always(neighbors_fn, s, t, c)
                                                && valid@(t) implies {
                                            &&& (exists|j: usize|
                                                #[trigger] call_ensures(index_fn, (t,), j))
                                            &&& (forall|j: usize|
                                                #[trigger] call_ensures(index_fn, (t,), j) ==> j
                                                    < max_states && g_score@[j as int]
                                                    <= spec_sat_add(g_score@[i as int], c))
                                        } by {
                                            assert forall|j: usize|
                                                #[trigger] call_ensures(
                                                    index_fn,
                                                    (t,),
                                                    j,
                                                ) implies j < max_states && g_score@[j as int]
                                                <= spec_sat_add(g_score@[i as int], c) by {
                                                assert(old_g[j as int] <= spec_sat_add(
                                                    old_g[i as int],
                                                    c,
                                                ));
                                                assert(g_score@[j as int] <= old_g[j as int]);
                                            }
                                        }
                                        assert(spec_settled(
                                            neighbors_fn,
                                            goal_fn,
                                            index_fn,
                                            valid@,
                                            g_score@,
                                            s,
                                            g_score@[i as int],
                                        ));
                                    }
                                }
                            }
                            assert forall|k2: int| 0 <= k2 < q implies spec_pair_relaxed(
                                index_fn,
                                g_score@,
                                max_states,
                                gc,
                                #[trigger] neigh@[k2],
                            ) by {
                                assert(spec_pair_relaxed(
                                    index_fn,
                                    old_g,
                                    max_states,
                                    gc,
                                    neigh@[k2],
                                ));
                                assert forall|j: usize|
                                    #[trigger] call_ensures(index_fn, (neigh@[k2].0,), j) implies j
                                    < max_states && g_score@[j as int] <= spec_sat_add(
                                    gc,
                                    neigh@[k2].1,
                                ) by {
                                    assert(old_g[j as int] <= spec_sat_add(gc, neigh@[k2].1));
                                    assert(g_score@[j as int] <= old_g[j as int]);
                                }
                            }
                        }
                    }
                    proof {
                        assert(neigh@[q as int] == pair);
                        assert(call_ensures(index_fn, (pair.0,), ni));
                        assert(spec_pair_relaxed(index_fn, g_score@, max_states, gc, pair)) by {
                            assert forall|j: usize|
                                #[trigger] call_ensures(index_fn, (pair.0,), j) implies j
                                < max_states && g_score@[j as int] <= spec_sat_add(gc, pair.1) by {
                                assert(j == ni);
                            }
                        }
                        assert forall|k2: int| 0 <= k2 < q + 1 implies spec_pair_relaxed(
                            index_fn,
                            g_score@,
                            max_states,
                            gc,
                            #[trigger] neigh@[k2],
                        ) by {
                            if k2 == q {
                                assert(neigh@[k2] == pair);
                            }
                        }
                    }
                    q += 1;
                }
                proof {
                    lemma_sum_nonneg(g_score@);
                    assert(2 * seq_u32_sum(g_score@) + spec_heap_contents(heap).len() < m0);
                    assert forall|s: T, i: usize|
                        valid@(s) && #[trigger] call_ensures(index_fn, (s,), i) && i < max_states
                            && g_score@[i as int] < u32::MAX && None::<T> != Some(
                        s,
                    ) implies spec_on_open(spec_heap_contents(heap), nodes@, s, g_score@[i as int])
                        || spec_settled(
                        neighbors_fn,
                        goal_fn,
                        index_fn,
                        valid@,
                        g_score@,
                        s,
                        g_score@[i as int],
                    ) by {
                        if s == cur_state {
                            assert(i == ci);
                            assert forall|t: T, c: u32|
                                #[trigger] spec_edge_always(neighbors_fn, cur_state, t, c)
                                    && valid@(t) implies {
                                &&& (exists|j: usize| #[trigger] call_ensures(index_fn, (t,), j))
                                &&& (forall|j: usize|
                                    #[trigger] call_ensures(index_fn, (t,), j) ==> j < max_states
                                        && g_score@[j as int] <= spec_sat_add(gc, c))
                            } by {
                                assert(neigh@.contains((t, c)));
                                let k2 = choose|k2: int|
                                    0 <= k2 < neigh@.len() && neigh@[k2] == ((t, c));
                                assert(spec_pair_relaxed(
                                    index_fn,
                                    g_score@,
                                    max_states,
                                    gc,
                                    neigh@[k2],
                                ));
                                assert(neigh@[k2].0 == t && neigh@[k2].1 == c);
                            }
                            assert(spec_settled(
                                neighbors_fn,
                                goal_fn,
                                index_fn,
                                valid@,
                                g_score@,
                                cur_state,
                                gc,
                            ));
                        }
                    }
                }
            },
        }
    }
}

/// The bookkeeping slot of a pose: row-major cell, then heading, with
/// the reverse flag as the lowest bit.
pub open spec fn spec_cell_index(w: int, n: int, c: Cell) -> int {
    ((c.position.y * w + c.position.x) * n + c.rotation) * 2 + (if c.reverse {
        1int
    } else {
        0int
    })
}

/// A pose inside the grid rectangle with an in-range heading.
pub open spec fn spec_pose_valid(g: &Grid, n: int, c: Cell) -> bool {
    g.spec_in_bounds(c.position.x as int, c.position.y as int) && 0 <= c.rotation < n
}

/// The slot of an in-range pose lies below twice the cell-heading
/// count.
proof fn lemma_cell_index_bound(w: int, h: int, n: int, c: Cell)
    requires
        0 < w,
        0 < h,
        0 < n,
        0 <= c.position.x < w,
        0 <= c.position.y < h,
        0 <= c.rotation < n,
    ensures
        0 <= spec_cell_index(w, n, c) < 2 * (w * h * n),
{
    assert(0 <= ((c.position.y * w + c.position.x) * n + c.rotation) * 2 + (if c.reverse {
        1int
    } else {
        0int
    }) < 2 * (w * h * n)) by (nonlinear_arith)
        requires
            0 < w,
            0 < h,
            0 < n,
            0 <= c.position.x < w,
            0 <= c.position.y < h,
            0 <= c.rotation < n,
    ;
}

/// Distinct in-range poses get distinct slots.
proof fn lemma_cell_index_injective(w: int, h: int, n: int, c1: Cell, c2: Cell)
    requires
        0 < w,
        0 < h,
        0 < n,
        0 <= c1.position.x < w,
        0 <= c1.position.y < h,
        0 <= c1.rotation < n,
        0 <= c2.position.x < w,
        0 <= c2.position.y < h,
        0 <= c2.rotation < n,
        spec_cell_index(w, n, c1) == spec_cell_index(w, n, c2),
    ensures
        c1 == c2,
{
    let u1 = (c1.position.y * w + c1.position.x) * n + c1.rotation;
    let u2 = (c2.position.y * w + c2.position.x) * n + c2.rotation;
    let b1: int = if c1.reverse {
        1
    } else {
        0
    };
    let b2: int = if c2.reverse {
        1
    } else {
        0
    };
    assert(u1 * 2 + b1 == u2 * 2 + b2);
    assert(u1 == u2 && b1 == b2);
    assert(c1.position.x == c2.position.x && c1.position.y == c2.position.y && c1.rotation
        == c2.rotation) by (nonlinear_arith)
        requires
            0 < w,
            0 < n,
            0 <= c1.position.x < w,
            0 <= c1.position.y < h,
            0 <= c1.rotation < n,
            0 <= c2.position.x < w,
            0 <= c2.position.y < h,
            0 <= c2.rotation < n,
            (c1.position.y * w + c1.position.x) * n + c1.rotation == (c2.position.y * w
                + c2.position.x) * n + c2.rotation,
    ;
}

/// One legal move of the search: `to` is a template step out of
/// `from`, its cell is free, every cell of the agent footprint at the
/// new pose is free, and `cost` is the cost model's price for the move.
pub open spec fn spec_search_edge(
    g: &Grid,
    a: &Agent,
    ca: &NeighborCache,
    m: &CostModel,
    from: Cell,
    to: Cell,
    cost: u32,
) -> bool {
    let n = ca.spec_max_increments();
    &&& exists|ti: int|
        0 <= ti < spec_template_list(n, ca.spec_arc(), from.rotation as int).len() && to
            == spec_step(
            from,
            #[trigger] spec_template_list(n, ca.spec_arc(), from.rotation as int)[ti],
        )
    &&& !g.spec_blocked(to.position.x as int, to.position.y as int)
    &&& (forall|ox: int, oy: int|
        a.spec_in_rotation_footprint(to.rotation as int, ox, oy) ==> !g.spec_blocked(
            to.position.x + ox,
            to.position.y + oy,
        ))
    &&& cost == m.spec_cost(to, from, n)
}

/// The step from `path[i]` to `path[i + 1]` is one legal move at some
/// cost.
pub open spec fn spec_path_step_ok(
    g: &Grid,
    a: &Agent,
    ca: &NeighborCache,
    m: &CostModel,
    path: Seq<Cell>,
    i: int,
) -> bool {
    exists|c: u32| #[trigger] spec_search_edge(g, a, ca, m, path[i], path[i + 1], c)
}

/// Every consecutive pair of poses along `path` is one legal move at
/// some cost.
pub open spec fn spec_path_ok(
    g: &Grid,
    a: &Agent,
    ca: &NeighborCache,
    m: &CostModel,
    path: Seq<Cell>,
) -> bool {
    forall|i: int|
        0 <= i < path.len() - 1 ==> #[trigger] spec_path_step_ok(g, a, ca, m, path, i)
}

/// The cost of a pose path: the summed model prices of its steps.
pub open spec fn spec_path_cost(m: CostModel, n: int, p: Seq<Cell>) -> int
    decreases p.len(),
{
    if p.len() <= 1 {
        0
    } else {
        spec_path_cost(m, n, p.drop_last()) + m.spec_cost(p[p.len() - 1], p[p.len() - 2], n)
    }
}

/// A cost sequence that prices each step by the model sums to the
/// path's cost.
proof fn lemma_path_cost_sum(m: CostModel, n: int, p: Seq<Cell>, cs: Seq<u32>)
    requires
        p.len() == cs.len() + 1,
        forall|i: int|
            0 <= i < cs.len() ==> (#[trigger] cs[i]) as int == m.spec_cost(p[i + 1], p[i], n),
    ensures
        seq_u32_sum(cs) == spec_path_cost(m, n, p),
    decreases p.len(),
{
    if cs.len() > 0 {
        assert forall|i: int| 0 <= i < cs.drop_last().len() implies (#[trigger] cs.drop_last()[i]) as int
            == m.spec_cost(p.drop_last()[i + 1], p.drop_last()[i], n) by {
            assert(cs.drop_last()[i] == cs[i]);
            assert(p.drop_last()[i + 1] == p[i + 1] && p.drop_last()[i] == p[i]);
        }
        lemma_path_cost_sum(m, n, p.drop_last(), cs.drop_last());
        assert(cs[cs.len() - 1] as int == m.spec_cost(p[p.len() - 1], p[p.len() - 2], n));
    }
}

/// Finds a collision-free pose path from a start pose to any pose over
/// the goal cell.
///
/// A returned path starts at the start pose, ends over the goal cell,
/// and every consecutive pair of poses is one legal move: a motion
/// template of the earlier pose's heading whose target cell and whole
/// agent footprint are free, priced exactly by the cost model; the
/// returned cost is the sum of those prices. Whenever any legal,
/// in-bounds pose path to the goal exists whose cost stays below the
/// `u32` ceiling, some path is returned: `None` means the goal is
/// unreachable, a first-class outcome. A goal that equals the start
/// position returns the one-pose path at cost zero. The search is
/// best-first with the model's heuristic; with the heuristic scales
/// this crate uses the result is near-optimal rather than provably
/// shortest.
#[verifier::rlimit(100)]
pub fn find_path(
    grid: &Grid,
    agent: &Agent,
    cache: &NeighborCache,
    model: &CostModel,
    start_position: GridVec,
    start_rotation: i16,
    goal: GridVec,
) -> (r: Option<(Vec<Cell>, u32)>)
    requires
        grid.wf(),
        agent.wf(),
        cache.wf(),
        model.wf(),
        agent.max_increments == cache.spec_max_increments(),
        0 <= start_rotation < cache.spec_max_increments(),
        grid.spec_in_bounds(start_position.x as int, start_position.y as int),
        grid.spec_in_bounds(goal.x as int, goal.y as int),
        grid.spec_width() <= 16384,
        grid.spec_height() <= 16384,
        2 * (grid.spec_width() * grid.spec_height() * cache.spec_max_increments())
            <= usize::MAX,
        model.spec_cost_fits(2),
        model.spec_heuristic_fits(
            2 * (grid.spec_width() * grid.spec_width() + grid.spec_height()
                * grid.spec_height()),
        ),
    ensures
        r matches Some(pc) ==> {
            &&& pc.0@.len() >= 1
            &&& pc.0@[0] == (Cell {
                rotation: start_rotation,
                position: start_position,
                reverse: false,
            })
            &&& pc.0@[pc.0@.len() - 1].position == goal
            &&& spec_path_ok(grid, agent, cache, model, pc.0@)
            &&& pc.1 == spec_path_cost(*model, cache.spec_max_increments(), pc.0@)
        },
        start_position == goal ==> (r matches Some(pc) && pc.0@ == seq![
            Cell { rotation: start_rotation, position: start_position, reverse: false },
        ] && pc.1 == 0),
        forall|p: Seq<Cell>|
            #![trigger spec_path_ok(grid, agent, cache, model, p)]
            p.len() >= 1 && p[0] == (Cell {
                rotation: start_rotation,
                position: start_position,
                reverse: false,
            }) && p[p.len() - 1].position == goal && spec_path_ok(grid, agent, cache, model, p)
                && (forall|i: int|
                0 <= i < p.len() ==> spec_pose_valid(
                    grid,
                    cache.spec_max_increments(),
                    #[trigger] p[i],
                )) && spec_path_cost(*model, cache.spec_max_increments(), p) < u32::MAX ==> r
                is Some,
{
    let n_u16 = cache.max_increments();
    let ghost n = n_u16 as int;
    let w = grid.width();
    let h = grid.height();
    let w64 = w as i64;
    let n64 = n_u16 as i64;
    proof {
        assert(0 < (w as int) * (h as int) * n && 2 * (w as int) <= 32768 && 2 * (w as int) * (
        h as int) <= 536870912 && 2 * (w as int) * (h as int) * n <= 8796629893120 && 2 * (
        w as int) * (h as int) * n == 2 * ((w as int) * (h as int) * n)) by (nonlinear_arith)
            requires
                0 < w as int,
                w as int <= 16384,
                0 < h as int,
                h as int <= 16384,
                0 < n,
                n <= 16383,
        ;
    }
    let max_states: usize = (2u64 * (w as u64) * (h as u64) * (n_u16 as u64)) as usize;
    proof {
        assert(max_states == 2 * ((w as int) * (h as int) * n));
    }
    let neighbors_fn = |action: Cell| -> (res: Vec<(Cell, u32)>)
        ensures
            forall|kq: int|
                0 <= kq < res@.len() ==> spec_search_edge(
                    grid,
                    agent,
                    cache,
                    model,
                    action,
                    (#[trigger] res@[kq]).0,
                    res@[kq].1,
                ),
            forall|kq: int|
                0 <= kq < res@.len() ==> spec_pose_valid(grid, n, (#[trigger] res@[kq]).0),
            spec_pose_valid(grid, n, action) ==> (forall|t: Cell, c: u32|
                #[trigger] spec_search_edge(grid, agent, cache, model, action, t, c)
                    ==> res@.contains((t, c))),
        {
            let mut res: Vec<(Cell, u32)> = Vec::new();
            if 0 <= action.rotation && (action.rotation as u16) < n_u16
                && -1000000000 <= action.position.x && action.position.x <= 1000000000
                && -1000000000 <= action.position.y && action.position.y <= 1000000000 {
                let neighs = action.neighbors(cache);
                let ghost tlist = spec_template_list(n, cache.spec_arc(), action.rotation as int);
                let mut ii: usize = 0;
                while ii < neighs.len()
                    invariant
                        ii <= neighs@.len(),
                        grid.wf(),
                        agent.wf(),
                        cache.wf(),
                        model.wf(),
                        n == cache.spec_max_increments(),
                        n == n_u16 as int,
                        0 < n_u16,
                        n_u16 <= 16383,
                        agent.max_increments == cache.spec_max_increments(),
                        model.spec_cost_fits(2),
                        grid.spec_width() <= 16384,
                        grid.spec_height() <= 16384,
                        -1000000000 <= action.position.x,
                        action.position.x <= 1000000000,
                        -1000000000 <= action.position.y,
                        action.position.y <= 1000000000,
                        0 <= action.rotation < n,
                        tlist == spec_template_list(n, cache.spec_arc(), action.rotation as int),
                        neighs@.len() == tlist.len(),
                        forall|i: int|
                            0 <= i < neighs@.len() ==> #[trigger] neighs@[i] == spec_step(
                                action,
                                tlist[i],
                            ),
                        forall|i: int|
                            0 <= i < neighs@.len() ==> crate::cell::spec_template_ok(
                                n,
                                #[trigger] tlist[i],
                            ),
                        forall|kq: int|
                            0 <= kq < res@.len() ==> spec_search_edge(
                                grid,
                                agent,
                                cache,
                                model,
                                action,
                                (#[trigger] res@[kq]).0,
                                res@[kq].1,
                            ),
                        forall|kq: int|
                            0 <= kq < res@.len() ==> spec_pose_valid(grid, n, (#[trigger] res@[kq]).0),
                        forall|t: Cell, c: u32|
                            #[trigger] spec_search_edge(grid, agent, cache, model, action, t, c)
                                && (exists|ti: int| 0 <= ti < ii && t == spec_step(action, tlist[ti]))
                                ==> res@.contains((t, c)),
                    decreases neighs@.len() - ii,
                {
                    let ghost res_head = res@;
                    let ne = *(&neighs[ii]);
                    if !grid.is_cell_blocked(ne.position.x, ne.position.y) {
                        let rf = agent.rotation_footprint(ne.rotation);
                        let mut all_free = true;
                        let mut jj: usize = 0;
                        while jj < rf.len()
                            invariant
                                jj <= rf@.len(),
                                grid.wf(),
                                agent.wf(),
                                agent.spec_footprint_list_ok(ne.rotation as int, rf@),
                                0 <= ne.position.x < grid.spec_width(),
                                0 <= ne.position.y < grid.spec_height(),
                                grid.spec_width() <= 16384,
                                grid.spec_height() <= 16384,
                                forall|i: int|
                                    0 <= i < rf@.len() ==> -4095 <= (#[trigger] rf@[i]).x <= 4095
                                        && -4095 <= rf@[i].y <= 4095,
                                all_free ==> (forall|i: int|
                                    0 <= i < jj ==> !grid.spec_blocked(
                                        ne.position.x + (#[trigger] rf@[i]).x,
                                        ne.position.y + rf@[i].y,
                                    )),
                                !all_free ==> (exists|i: int|
                                    0 <= i < jj && grid.spec_blocked(
                                        ne.position.x + (#[trigger] rf@[i]).x,
                                        ne.position.y + rf@[i].y,
                                    )),
                            decreases rf@.len() - jj,
                        {
                            let off = *(&rf[jj]);
                            if grid.is_cell_blocked(ne.position.x + off.x, ne.position.y + off.y) {
                                all_free = false;
                                proof {
                                    assert(rf@[jj as int] == off);
                                    assert(grid.spec_blocked(
                                        ne.position.x + rf@[jj as int].x,
                                        ne.position.y + rf@[jj as int].y,
                                    ));
                                }
                            }
                            proof {
                                if all_free {
                                    assert forall|i: int|
                                        0 <= i < jj + 1 implies !grid.spec_blocked(
                                        ne.position.x + (#[trigger] rf@[i]).x,
                                        ne.position.y + rf@[i].y,
                                    ) by {
                                        if i < jj {
                                        } else {
                                            assert(rf@[i] == off);
                                        }
                                    }
                                }
                            }
                            jj += 1;
                        }
                        if all_free {
                            proof {
                                let ti = ii as int;
                                assert(ne == spec_step(action, tlist[ti]));
                                assert(-1 <= tlist[ti].offset.x <= 1);
                                assert(-1 <= tlist[ti].offset.y <= 1);
                                assert(-1000000000 <= action.position.x <= 1000000000);
                                assert(ne.position.x == action.position.x + tlist[ti].offset.x);
                                assert(ne.position.y == action.position.y + tlist[ti].offset.y);
                                assert(spec_dist2(ne.position, action.position) == tlist[ti].offset.x
                                    * tlist[ti].offset.x + tlist[ti].offset.y * tlist[ti].offset.y);
                                assert(0 <= spec_dist2(ne.position, action.position) <= 2)
                                    by (nonlinear_arith)
                                    requires
                                        -1 <= tlist[ti].offset.x <= 1,
                                        -1 <= tlist[ti].offset.y <= 1,
                                        spec_dist2(ne.position, action.position) == tlist[ti].offset.x
                                            * tlist[ti].offset.x + tlist[ti].offset.y
                                            * tlist[ti].offset.y,
                                ;
                                lemma_fits_monotone(
                                    *model,
                                    spec_dist2(ne.position, action.position),
                                    2,
                                );
                            }
                            let cost = ne.cost(Some(&action), model, n_u16);
                            res.push((ne, cost));
                            proof {
                                let last = res@.len() - 1;
                                assert(res@[last] == (ne, cost));
                                assert forall|ox: int, oy: int|
                                    agent.spec_in_rotation_footprint(
                                        ne.rotation as int,
                                        ox,
                                        oy,
                                    ) implies !grid.spec_blocked(
                                    ne.position.x + ox,
                                    ne.position.y + oy,
                                ) by {
                                    assert(-4095 <= ox <= 4095 && -4095 <= oy <= 4095);
                                    assert(rf@.contains(GridVec { x: ox as i32, y: oy as i32 }));
                                    let fi = choose|fi: int|
                                        0 <= fi < rf@.len() && rf@[fi] == (GridVec {
                                            x: ox as i32,
                                            y: oy as i32,
                                        });
                                    assert(!grid.spec_blocked(
                                        ne.position.x + rf@[fi].x,
                                        ne.position.y + rf@[fi].y,
                                    ));
                                }
                                let ti2 = ii as int;
                                assert(tlist[ti2] == spec_template_list(
                                    cache.spec_max_increments(),
                                    cache.spec_arc(),
                                    action.rotation as int,
                                )[ti2]);
                                assert(ne == spec_step(
                                    action,
                                    spec_template_list(
                                        cache.spec_max_increments(),
                                        cache.spec_arc(),
                                        action.rotation as int,
                                    )[ti2],
                                ));
                                assert(cost == model.spec_cost(ne, action, cache.spec_max_increments()));
                                assert(spec_search_edge(grid, agent, cache, model, action, ne, cost));
                                assert(spec_pose_valid(grid, n, ne));
                                assert forall|t: Cell, c: u32|
                                    #[trigger] spec_search_edge(
                                        grid,
                                        agent,
                                        cache,
                                        model,
                                        action,
                                        t,
                                        c,
                                    ) && t == ne implies res@.contains((t, c)) by {
                                    assert(c as int == model.spec_cost(
                                        ne,
                                        action,
                                        cache.spec_max_increments(),
                                    ));
                                    assert(c == cost);
                                    assert(res@[res@.len() - 1] == ((ne, cost)));
                                }
                            }
                        } else {
                            proof {
                                assert forall|t: Cell, c: u32|
                                    #[trigger] spec_search_edge(
                                        grid,
                                        agent,
                                        cache,
                                        model,
                                        action,
                                        t,
                                        c,
                                    ) && t == ne implies res@.contains((t, c)) by {
                                    let bi = choose|i: int|
                                        0 <= i < rf@.len() && grid.spec_blocked(
                                            ne.position.x + (#[trigger] rf@[i]).x,
                                            ne.position.y + rf@[i].y,
                                        );
                                    assert(agent.spec_in_rotation_footprint(
                                        ne.rotation as int,
                                        rf@[bi].x as int,
                                        rf@[bi].y as int,
                                    ));
                                    assert(!grid.spec_blocked(
                                        ne.position.x + rf@[bi].x as int,
                                        ne.position.y + rf@[bi].y as int,
                                    ));
                                    assert(false);
                                }
                            }
                        }
                    }
                    proof {
                        assert forall|t: Cell, c: u32|
                            #[trigger] spec_search_edge(grid, agent, cache, model, action, t, c)
                                && (exists|ti: int|
                                0 <= ti < ii + 1 && t == spec_step(action, tlist[ti])) implies res@.contains(
                            (t, c),
                        ) by {
                            let ti = choose|ti: int|
                                0 <= ti < ii + 1 && t == spec_step(action, tlist[ti]);
                            if ti < ii {
                                assert(exists|ti2: int|
                                    0 <= ti2 < ii && t == spec_step(action, tlist[ti2]));
                                assert(res_head.contains((t, c)));
                                let kq = choose|kq: int|
                                    0 <= kq < res_head.len() && res_head[kq] == ((t, c));
                                assert(res@[kq] == ((t, c)));
                                assert(res@.contains((t, c)));
                            } else {
                                assert(t == ne);
                                if grid.spec_blocked(ne.position.x as int, ne.position.y as int) {
                                    assert(!grid.spec_blocked(
                                        t.position.x as int,
                                        t.position.y as int,
                                    ));
                                    assert(false);
                                }
                                assert(res@.contains((t, c)));
                            }
                        }
                    }
                    ii += 1;
                }
                proof {
                    assert forall|t: Cell, c: u32|
                        #[trigger] spec_search_edge(
                            grid,
                            agent,
                            cache,
                            model,
                            action,
                            t,
                            c,
                        ) implies res@.contains((t, c)) by {
                        let ti = choose|ti: int|
                            0 <= ti < spec_template_list(
                                cache.spec_max_increments(),
                                cache.spec_arc(),
                                action.rotation as int,
                            ).len() && t == spec_step(
                                action,
                                #[trigger] spec_template_list(
                                    cache.spec_max_increments(),
                                    cache.spec_arc(),
                                    action.rotation as int,
                                )[ti],
                            );
                        assert(t == spec_step(action, tlist[ti]));
                        assert(exists|ti2: int|
                            0 <= ti2 < ii && t == spec_step(action, tlist[ti2]));
                    }
                }
            }
            res
        };
    let heuristic_fn = |action: Cell| -> (hres: u32)
        ensures
            spec_pose_valid(grid, n, action) ==> hres == model.spec_heuristic(action.position, goal),
        {
            if 0 <= action.position.x && action.position.x < w && 0 <= action.position.y
                && action.position.y < h {
                proof {
                    let dx = action.position.x as int - goal.x;
                    let dy = action.position.y as int - goal.y;
                    assert(0 <= dx * dx + dy * dy <= 2 * (grid.spec_width() * grid.spec_width()
                        + grid.spec_height() * grid.spec_height())) by (nonlinear_arith)
                        requires
                            0 <= action.position.x < grid.spec_width(),
                            0 <= action.position.y < grid.spec_height(),
                            0 <= goal.x < grid.spec_width(),
                            0 <= goal.y < grid.spec_height(),
                            dx == action.position.x as int - goal.x,
                            dy == action.position.y as int - goal.y,
                    ;
                    lemma_fits_monotone(
                        *model,
                        spec_dist2(action.position, goal),
                        2 * (grid.spec_width() * grid.spec_width() + grid.spec_height()
                            * grid.spec_height()),
                    );
                }
                action.heuristic(goal, model)
            } else {
                0
            }
        };
    let goal_fn = |action: Cell| -> (b: bool)
        ensures
            b == (action.position.x == goal.x && action.position.y == goal.y),
        {
            action.position.x == goal.x && action.position.y == goal.y
        };
    let index_fn = |action: Cell| -> (i: usize)
        ensures
            i < max_states,
            spec_pose_valid(grid, n, action) ==> i as int == spec_cell_index(
                grid.spec_width(),
                n,
                action,
            ),
        {
            if 0 <= action.position.x && action.position.x < w && 0 <= action.position.y
                && action.position.y < h && 0 <= action.rotation && (action.rotation as u16)
                < n_u16 {
                proof {
                    lemma_cell_index_bound(
                        grid.spec_width(),
                        grid.spec_height(),
                        n,
                        action,
                    );
                    let yi = action.position.y as int;
                    let xi = action.position.x as int;
                    let ri = action.rotation as int;
                    let wi = w as int;
                    assert(0 <= yi * wi && yi * wi <= 268435456 && 0 <= yi * wi + xi && (yi * wi
                        + xi) * n <= 4398046511104 && 0 <= (yi * wi + xi) * n && ((yi * wi + xi)
                        * n + ri) * 2 + 1 <= 8796629893121) by (nonlinear_arith)
                        requires
                            0 <= yi,
                            yi < 16384,
                            0 <= xi,
                            xi < wi,
                            0 < wi,
                            wi <= 16384,
                            0 <= ri,
                            ri < n,
                            0 < n,
                            n <= 16383,
                    ;
                }
                let idx64: i64 = ((action.position.y as i64 * w64 + action.position.x as i64)
                    * n64 + action.rotation as i64) * 2 + (if action.reverse {
                    1
                } else {
                    0
                });
                idx64 as usize
            } else {
                0
            }
        };
    let ghost validf = |c: Cell| spec_pose_valid(grid, n, c);
    let start_cell = Cell::new(start_rotation, start_position);
    proof {
        assert(validf(start_cell));
        assert forall|s: Cell, i: usize|
            validf(s) && #[trigger] call_ensures(index_fn, (s,), i) implies i < max_states by {}
        assert forall|s: Cell, i1: usize, i2: usize|
            #![trigger call_ensures(index_fn, (s,), i1), call_ensures(index_fn, (s,), i2)]
            validf(s) && call_ensures(index_fn, (s,), i1) && call_ensures(
                index_fn,
                (s,),
                i2,
            ) implies i1 == i2 by {}
        assert forall|s1: Cell, s2: Cell, i1: usize, i2: usize|
            #![trigger call_ensures(index_fn, (s1,), i1), call_ensures(index_fn, (s2,), i2)]
            validf(s1) && validf(s2) && call_ensures(index_fn, (s1,), i1) && call_ensures(
                index_fn,
                (s2,),
                i2,
            ) && i1 == i2 implies s1 == s2 by {
            lemma_cell_index_injective(grid.spec_width(), grid.spec_height(), n, s1, s2);
        }
        assert forall|s: Cell, out: Vec<(Cell, u32)>, kq: int|
            #![trigger call_ensures(neighbors_fn, (s,), out), out@[kq]]
            validf(s) && call_ensures(neighbors_fn, (s,), out) && 0 <= kq
                < out@.len() implies validf(out@[kq].0) by {}
    }
    let result = optimized_astar(
        start_cell,
        max_states,
        neighbors_fn,
        heuristic_fn,
        goal_fn,
        index_fn,
        Ghost(validf),
    );
    proof {
        if result is Some {
            let pc = result->Some_0;
            let p = pc.0@;
            assert(call_ensures(goal_fn, (p[p.len() - 1],), true));
            assert(p[p.len() - 1].position.x == goal.x && p[p.len() - 1].position.y == goal.y);
            assert forall|i: int| 0 <= i < p.len() - 1 implies #[trigger] spec_path_step_ok(
                grid,
                agent,
                cache,
                model,
                p,
                i,
            ) by {
                assert(spec_connected(neighbors_fn, p[i], p[i + 1]));
                let c = choose|c: u32| #[trigger] spec_edge(neighbors_fn, p[i], p[i + 1], c);
                let out = choose|out: Vec<(Cell, u32)>|
                    #[trigger] call_ensures(neighbors_fn, (p[i],), out) && out@.contains(
                        (p[i + 1], c),
                    );
                let kq = choose|kq: int| 0 <= kq < out@.len() && out@[kq] == ((p[i + 1], c));
                assert(spec_search_edge(grid, agent, cache, model, p[i], out@[kq].0, out@[kq].1));
                assert(spec_search_edge(grid, agent, cache, model, p[i], p[i + 1], c));
            }
            assert(spec_path_ok(grid, agent, cache, model, p));
            let cs = choose|cs: Seq<u32>|
                {
                    &&& cs.len() == p.len() - 1
                    &&& (forall|i: int|
                        0 <= i < cs.len() ==> spec_edge(neighbors_fn, p[i], p[i + 1], #[trigger] cs[i]))
                    &&& pc.1 == seq_u32_sum(cs)
                };
            assert forall|i: int| 0 <= i < cs.len() implies (#[trigger] cs[i]) as int
                == model.spec_cost(p[i + 1], p[i], n) by {
                assert(spec_edge(neighbors_fn, p[i], p[i + 1], cs[i]));
                let out = choose|out: Vec<(Cell, u32)>|
                    #[trigger] call_ensures(neighbors_fn, (p[i],), out) && out@.contains(
                        (p[i + 1], cs[i]),
                    );
                let kq = choose|kq: int| 0 <= kq < out@.len() && out@[kq] == ((p[i + 1], cs[i]));
                assert(spec_search_edge(grid, agent, cache, model, p[i], out@[kq].0, out@[kq].1));
            }
            lemma_path_cost_sum(*model, n, p, cs);
            assert(pc.1 == spec_path_cost(*model, n, p));
        }
        if start_position == goal {
            assert forall|b: bool| call_ensures(goal_fn, (start_cell,), b) implies b by {}
            assert(spec_goal_sure(goal_fn, start_cell));
        }
        assert forall|p: Seq<Cell>|
            #![trigger spec_path_ok(grid, agent, cache, model, p)]
            p.len() >= 1 && p[0] == (Cell {
                rotation: start_rotation,
                position: start_position,
                reverse: false,
            }) && p[p.len() - 1].position == goal && spec_path_ok(grid, agent, cache, model, p)
                && (forall|i: int| 0 <= i < p.len() ==> spec_pose_valid(grid, n, #[trigger] p[i]))
                && spec_path_cost(*model, n, p) < u32::MAX implies result is Some by {
            let csq = Seq::new((p.len() - 1) as nat, |i: int| (model.spec_cost(p[i + 1], p[i], n)) as u32);
            assert forall|i: int| 0 <= i < csq.len() implies #[trigger] spec_edge_always(
                neighbors_fn,
                p[i],
                p[i + 1],
                csq[i],
            ) && (csq[i] as int == model.spec_cost(p[i + 1], p[i], n)) by {
                assert(spec_path_step_ok(grid, agent, cache, model, p, i));
                let c = choose|c: u32|
                    #[trigger] spec_search_edge(grid, agent, cache, model, p[i], p[i + 1], c);
                assert(c as int == model.spec_cost(p[i + 1], p[i], n));
                assert(csq[i] == c);
                assert(spec_search_edge(grid, agent, cache, model, p[i], p[i + 1], csq[i]));
                assert forall|out: Vec<(Cell, u32)>|
                    #[trigger] call_ensures(neighbors_fn, (p[i],), out) implies out@.contains(
                    (p[i + 1], csq[i]),
                ) by {
                    assert(spec_pose_valid(grid, n, p[i]));
                }
            }
            assert forall|i: int| 0 <= i < csq.len() implies (#[trigger] csq[i]) as int
                == model.spec_cost(p[i + 1], p[i], n) by {
                assert(spec_edge_always(neighbors_fn, p[i], p[i + 1], csq[i]) && csq[i] as int
                    == model.spec_cost(p[i + 1], p[i], n));
            }
            lemma_path_cost_sum(*model, n, p, csq);
            assert(spec_sure_chain(neighbors_fn, validf, start_cell, p, csq)) by {
                assert forall|i: int| 0 <= i < p.len() implies validf(#[trigger] p[i]) by {
                    assert(spec_pose_valid(grid, n, p[i]));
                }
            }
            assert(spec_goal_sure(goal_fn, p[p.len() - 1])) by {
                assert forall|b: bool| #[trigger] call_ensures(
                    goal_fn,
                    (p[p.len() - 1],),
                    b,
                ) implies b by {}
            }
        }
    }
    result
}

} // verus!
