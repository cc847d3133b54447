//! Which cells can be computed once a given cell is: a directed graph from a
//! cell to the cells whose expressions refer to it.
use vstd::prelude::*;

use crate::common_types::Index;

verus! {

/// For each node, in the order nodes were first seen, the nodes that it
/// allows to compute (one entry per reference, so an entry may repeat).
#[derive(Debug)]
pub struct DependancyGraph {
    keys: Vec<Index>,
    allows_compute: Vec<Vec<Index>>,
}

#[derive(Debug)]
pub struct TopologicalSort {
    pub sorted: Vec<Index>,
    pub cycles: Vec<Index>,
}

/// The position of `k` in `s` (meaningful where `s` holds `k`).
pub open spec fn pos_of(s: Seq<Index>, k: Index) -> int {
    choose|i: int| 0 <= i < s.len() && s[i] == k
}

pub proof fn lemma_pos_of(s: Seq<Index>, i: int)
    requires
        s.no_duplicates(),
        0 <= i < s.len(),
    ensures
        pos_of(s, s[i]) == i,
{
    let k = s[i];
    assert(0 <= i < s.len() && s[i] == k);
    let j = pos_of(s, k);
    assert(0 <= j < s.len() && s[j] == k);
}

/// The entries of `m` for `k`, or none when `k` is no node.
pub open spec fn succ_or_empty(m: Map<Index, Seq<Index>>, k: Index) -> Seq<Index> {
    if m.contains_key(k) {
        m[k]
    } else {
        Seq::empty()
    }
}

/// `m` with `k` as a node (with no entries if it was none).
pub open spec fn with_node(m: Map<Index, Seq<Index>>, k: Index) -> Map<Index, Seq<Index>> {
    if m.contains_key(k) {
        m
    } else {
        m.insert(k, Seq::empty())
    }
}

/// `m` after appending `target` to the entries of each of `deps`, in order.
pub open spec fn add_edges(m: Map<Index, Seq<Index>>, deps: Seq<Index>, target: Index) -> Map<
    Index,
    Seq<Index>,
>
    decreases deps.len(),
{
    if deps.len() == 0 {
        m
    } else {
        let m2 = add_edges(m, deps.drop_last(), target);
        m2.insert(deps.last(), succ_or_empty(m2, deps.last()).push(target))
    }
}

/// The graph after a cell `idx` that depends on `deps` is added.
pub open spec fn added_node(m: Map<Index, Seq<Index>>, idx: Index, deps: Seq<Index>) -> Map<
    Index,
    Seq<Index>,
> {
    add_edges(with_node(m, idx), deps, idx)
}

/// `s` without any occurrence of `x`, the rest in order.
pub open spec fn drop_all(s: Seq<Index>, x: Index) -> Seq<Index>
    decreases s.len(),
{
    if s.len() == 0 {
        s
    } else if s.last() == x {
        drop_all(s.drop_last(), x)
    } else {
        drop_all(s.drop_last(), x).push(s.last())
    }
}

/// The graph after every edge into `idx` is removed; the nodes stay.
pub open spec fn removed_edges_to(m: Map<Index, Seq<Index>>, idx: Index) -> Map<Index, Seq<Index>> {
    Map::new(|k: Index| m.contains_key(k), |k: Index| drop_all(m[k], idx))
}

/// `u` allows to compute `v`.
pub open spec fn edge(m: Map<Index, Seq<Index>>, u: Index, v: Index) -> bool {
    m.contains_key(u) && m[u].contains(v)
}

/// Consecutive nodes of `p` are joined by edges.
pub open spec fn is_walk(m: Map<Index, Seq<Index>>, p: Seq<Index>) -> bool {
    forall|i: int| 0 <= i < p.len() - 1 ==> #[trigger] edge(m, p[i], p[i + 1])
}

/// `b` can be reached from `a` by following one edge or more.
pub open spec fn reaches(m: Map<Index, Seq<Index>>, a: Index, b: Index) -> bool {
    exists|p: Seq<Index>| p.len() >= 2 && p[0] == a && p.last() == b && #[trigger] is_walk(m, p)
}

/// Every node whose entries hold `x` is listed in `order` before `x`.
pub open spec fn preds_before(m: Map<Index, Seq<Index>>, order: Seq<Index>) -> bool {
    forall|i: int, u: Index|
        0 <= i < order.len() && #[trigger] edge(m, u, order[i]) ==> exists|j: int|
            0 <= j < i && #[trigger] order[j] == u
}

/// `sorted` and `cycles` split the nodes of `m`: `sorted` lists each node
/// after every node that allows to compute it, and each node of `cycles` is
/// allowed to compute by another node of `cycles` (so it lies on a cycle or
/// after one).
pub open spec fn is_topological_split(
    m: Map<Index, Seq<Index>>,
    sorted: Seq<Index>,
    cycles: Seq<Index>,
) -> bool {
    &&& sorted.no_duplicates()
    &&& cycles.no_duplicates()
    &&& forall|x: Index| #[trigger] sorted.contains(x) ==> !cycles.contains(x)
    &&& forall|x: Index|
        m.contains_key(x) <==> (#[trigger] sorted.contains(x) || #[trigger] cycles.contains(x))
    &&& preds_before(m, sorted)
    &&& forall|v: Index| #[trigger]
        cycles.contains(v) ==> exists|u: Index| cycles.contains(u) && #[trigger] edge(m, u, v)
}

impl View for DependancyGraph {
    type V = Map<Index, Seq<Index>>;

    closed spec fn view(&self) -> Map<Index, Seq<Index>> {
        Map::new(
            |k: Index| self.keys@.contains(k),
            |k: Index| self.allows_compute@[pos_of(self.keys@, k)]@,
        )
    }
}

impl DependancyGraph {
    /// Each node is listed once, and every entry is a node.
    pub closed spec fn wf(&self) -> bool {
        &&& self.keys@.len() == self.allows_compute@.len()
        &&& self.keys@.no_duplicates()
        &&& forall|i: int, j: int|
            0 <= i < self.allows_compute@.len() && 0 <= j < self.allows_compute@[i]@.len()
                ==> self.keys@.contains(#[trigger] self.allows_compute@[i]@[j])
    }

    /// Every node listed as allowed to be computed from another is itself a
    /// node of the graph.
    pub proof fn lemma_entries_are_nodes(&self)
        requires
            self.wf(),
        ensures
            forall|k: Index, v: Index|
                self@.contains_key(k) && #[trigger] self@[k].contains(v) ==> self@.contains_key(v),
    {
        assert forall|k: Index, v: Index|
            self@.contains_key(k) && #[trigger] self@[k].contains(v) implies self@.contains_key(v) by {
            let i = pos_of(self.keys@, k);
            assert(self.keys@.contains(k));
            let j = choose|j: int| 0 <= j < self@[k].len() && self@[k][j] == v;
            assert(self.keys@.contains(self.allows_compute@[i]@[j]));
        }
    }

    pub fn new() -> (r: Self)
        ensures
            r.wf(),
            r@ == Map::<Index, Seq<Index>>::empty(),
    {
        let r = DependancyGraph { keys: Vec::new(), allows_compute: Vec::new() };
        assert(r@ =~= Map::<Index, Seq<Index>>::empty());
        r
    }

    /// The position of node `k`, if it is one.
    fn find(&self, k: Index) -> (r: Option<usize>)
        requires
            self.wf(),
        ensures
            match r {
                Some(i) => i < self.keys@.len() && self.keys@[i as int] == k && pos_of(self.keys@, k)
                    == i,
                None => !self.keys@.contains(k),
            },
    {
        let mut i: usize = 0;
        while i < self.keys.len()
            invariant
                self.wf(),
                i <= self.keys@.len(),
                forall|j: int| 0 <= j < i ==> self.keys@[j] != k,
            decreases self.keys@.len() - i,
        {
            if self.keys[i] == k {
                proof {
                    lemma_pos_of(self.keys@, i as int);
                }
                return Some(i);
            }
            i = i + 1;
        }
        None
    }

    /// Makes `k` a node (with no entries if it was none); returns its position.
    fn ensure_node(&mut self, k: Index) -> (r: usize)
        requires
            old(self).wf(),
        ensures
            final(self).wf(),
            final(self)@ == with_node(old(self)@, k),
            r < final(self).keys@.len(),
            final(self).keys@[r as int] == k,
            pos_of(final(self).keys@, k) == r,
            final(self).keys@.len() >= old(self).keys@.len(),
            forall|j: int| 0 <= j < old(self).keys@.len() ==> final(self).keys@[j] == old(self).keys@[j]
                && final(self).allows_compute@[j] == old(self).allows_compute@[j],
    {
        match self.find(k) {
            Some(i) => {
                assert(self@ =~= with_node(old(self)@, k));
                i
            },
            None => {
                let ghost old_keys = self.keys@;
                let ghost old_graph = self@;
                self.keys.push(k);
                self.allows_compute.push(Vec::new());
                let n = self.keys.len() - 1;
                proof {
                    assert(self.keys@.no_duplicates()) by {
                        assert forall|a: int, b: int|
                            0 <= a < b < self.keys@.len() implies self.keys@[a] != self.keys@[b] by {
                            assert(self.keys@[a] == old_keys[a]);
                            assert(old_keys.contains(old_keys[a]));
                            if b < n {
                                assert(self.keys@[b] == old_keys[b]);
                            }
                        }
                    }
                    lemma_pos_of(self.keys@, n as int);
                    assert forall|i: int, j: int|
                        0 <= i < self.allows_compute@.len() && 0 <= j
                            < self.allows_compute@[i]@.len() implies self.keys@.contains(
                        #[trigger] self.allows_compute@[i]@[j],
                    ) by {
                        assert(i < n);
                        assert(old(self).keys@.contains(old(self).allows_compute@[i]@[j]));
                        let t = choose|t: int|
                            0 <= t < old_keys.len() && old_keys[t]
                                == old(self).allows_compute@[i]@[j];
                        assert(self.keys@[t] == old_keys[t]);
                    }
                    assert forall|x: Index| #[trigger]
                        self@.contains_key(x) implies self@[x] == with_node(old_graph, k)[x] by {
                        if x != k {
                            assert(old_keys.contains(x));
                            let t = choose|t: int| 0 <= t < old_keys.len() && old_keys[t] == x;
                            lemma_pos_of(old_keys, t);
                            lemma_pos_of(self.keys@, t);
                        }
                    }
                    assert forall|x: Index|
                        self@.dom().contains(x) == with_node(old_graph, k).dom().contains(x) by {
                        lemma_push_contains(old_keys, k, x);
                        assert(self.keys@ == old_keys.push(k));
                    }
                    assert(self@ =~= with_node(old_graph, k));
                }
                n
            },
        }
    }

    /// Records that cell `idx` depends on each of `cel_depends_on`.
    pub fn add_node(&mut self, idx: Index, cel_depends_on: &Vec<Index>)
        requires
            old(self).wf(),
        ensures
            final(self).wf(),
            final(self)@ == added_node(old(self)@, idx, cel_depends_on@),
    {
        self.ensure_node(idx);
        let ghost start = self@;
        let mut i: usize = 0;
        while i < cel_depends_on.len()
            invariant
                self.wf(),
                self@.contains_key(idx),
                start == with_node(old(self)@, idx),
                i <= cel_depends_on@.len(),
                self@ == add_edges(start, cel_depends_on@.take(i as int), idx),
            decreases cel_depends_on@.len() - i,
        {
            let dependency = cel_depends_on[i];
            let ghost before = self@;
            let p = self.ensure_node(dependency);
            let ghost mid = self@;
            let ghost mid_keys = self.keys@;
            let ghost mid_lists = self.allows_compute@;
            self.allows_compute[p].push(idx);
            proof {
                assert(cel_depends_on@.take(i + 1).drop_last() =~= cel_depends_on@.take(i as int));
                assert(self.keys@ == mid_keys);
                assert(mid.contains_key(idx));
                assert forall|a: int, b: int|
                    0 <= a < self.allows_compute@.len() && 0 <= b
                        < self.allows_compute@[a]@.len() implies self.keys@.contains(
                    #[trigger] self.allows_compute@[a]@[b],
                ) by {
                    if a == p && b == mid_lists[a]@.len() {
                        let t = pos_of(mid_keys, idx);
                        assert(mid_keys.contains(idx));
                    } else {
                        assert(self.allows_compute@[a]@[b] == mid_lists[a]@[b]);
                    }
                }
                assert forall|x: Index| #[trigger]
                    self@.contains_key(x) implies self@[x] == mid.insert(
                    dependency,
                    succ_or_empty(mid, dependency).push(idx),
                )[x] by {
                    let t = choose|t: int| 0 <= t < mid_keys.len() && mid_keys[t] == x;
                    lemma_pos_of(mid_keys, t);
                    if x == dependency {
                        assert(self.allows_compute@[p as int]@ =~= mid_lists[p as int]@.push(idx));
                    }
                }
                assert(self@ =~= mid.insert(dependency, succ_or_empty(mid, dependency).push(idx)));
                assert(succ_or_empty(mid, dependency) == succ_or_empty(before, dependency));
            }
            i = i + 1;
        }
        proof {
            assert(cel_depends_on@.take(cel_depends_on@.len() as int) =~= cel_depends_on@);
        }
    }

    /// Removes every edge into `index`; the nodes stay.
    pub fn remove_node(&mut self, index: Index)
        requires
            old(self).wf(),
        ensures
            final(self).wf(),
            final(self)@ == removed_edges_to(old(self)@, index),
    {
        let ghost old_keys = self.keys@;
        let ghost old_lists = self.allows_compute@;
        let mut p: usize = 0;
        while p < self.allows_compute.len()
            invariant
                self.keys@ == old_keys,
                old_keys.no_duplicates(),
                self.allows_compute@.len() == old_lists.len(),
                old_keys.len() == old_lists.len(),
                p <= old_lists.len(),
                forall|a: int| 0 <= a < p ==> #[trigger] self.allows_compute@[a]@ == drop_all(old_lists[a]@, index),
                forall|a: int| p <= a < old_lists.len() ==> #[trigger] self.allows_compute@[a] == old_lists[a],
                forall|i: int, j: int|
                    0 <= i < old_lists.len() && 0 <= j < old_lists[i]@.len()
                        ==> old_keys.contains(#[trigger] old_lists[i]@[j]),
            decreases old_lists.len() - p,
        {
            let mut kept: Vec<Index> = Vec::new();
            let mut q: usize = 0;
            let n = self.allows_compute[p].len();
            while q < n
                invariant
                    n == self.allows_compute@[p as int]@.len(),
                    p < self.allows_compute@.len(),
                    q <= n,
                    kept@ == drop_all(self.allows_compute@[p as int]@.take(q as int), index),
                decreases n - q,
            {
                let x = self.allows_compute[p][q];
                proof {
                    let s = self.allows_compute@[p as int]@;
                    assert(s.take(q + 1).drop_last() =~= s.take(q as int));
                }
                if x != index {
                    kept.push(x);
                }
                q = q + 1;
            }
            proof {
                let s = self.allows_compute@[p as int]@;
                assert(s.take(n as int) =~= s);
            }
            self.allows_compute.set(p, kept);
            p = p + 1;
        }
        proof {
            assert forall|i: int, j: int|
                0 <= i < self.allows_compute@.len() && 0 <= j
                    < self.allows_compute@[i]@.len() implies self.keys@.contains(
                #[trigger] self.allows_compute@[i]@[j],
            ) by {
                lemma_drop_all_subset(old_lists[i]@, index, self.allows_compute@[i]@[j]);
                let t = choose|t: int| 0 <= t < old_lists[i]@.len() && old_lists[i]@[t] == self.allows_compute@[i]@[j];
                assert(old_keys.contains(old_lists[i]@[t]));
            }
            assert forall|x: Index| #[trigger]
                self@.contains_key(x) implies self@[x] == removed_edges_to(old(self)@, index)[x] by {
                let t = choose|t: int| 0 <= t < old_keys.len() && old_keys[t] == x;
                lemma_pos_of(old_keys, t);
            }
            assert(self@ =~= removed_edges_to(old(self)@, index));
        }
    }

    /// Replaces the dependencies of cell `index` by `dependencies`.
    pub fn change_node(&mut self, index: Index, dependencies: &Vec<Index>)
        requires
            old(self).wf(),
        ensures
            final(self).wf(),
            final(self)@ == added_node(
                removed_edges_to(old(self)@, index),
                index,
                dependencies@,
            ),
    {
        self.remove_node(index);
        self.add_node(index, dependencies);
    }
}

impl Default for DependancyGraph {
    /// A graph with no nodes.
    fn default() -> (r: Self)
        ensures
            r.wf(),
            r@ == Map::<Index, Seq<Index>>::empty(),
    {
        Self::new()
    }
}

/// Whether `v` holds `x`.
fn contains_index(v: &Vec<Index>, x: Index) -> (r: bool)
    ensures
        r == v@.contains(x),
{
    let mut i: usize = 0;
    while i < v.len()
        invariant
            i <= v@.len(),
            forall|j: int| 0 <= j < i ==> v@[j] != x,
        decreases v@.len() - i,
    {
        if v[i] == x {
            assert(v@[i as int] == x);
            return true;
        }
        i = i + 1;
    }
    false
}

/// Whether `v` holds `x`.
fn contains_pos(v: &Vec<usize>, x: usize) -> (r: bool)
    ensures
        r == v@.contains(x),
{
    let mut i: usize = 0;
    while i < v.len()
        invariant
            i <= v@.len(),
            forall|j: int| 0 <= j < i ==> v@[j] != x,
        decreases v@.len() - i,
    {
        if v[i] == x {
            assert(v@[i as int] == x);
            return true;
        }
        i = i + 1;
    }
    false
}

/// The nodes of `(result, start)` have all their edges into `result`.
pub open spec fn closed_under(m: Map<Index, Seq<Index>>, start: Index, result: Seq<Index>) -> bool {
    forall|u: Index, v: Index|
        (u == start || result.contains(u)) && #[trigger] edge(m, u, v) ==> result.contains(v)
}

/// A set closed under the edges holds everything reachable from `start`.
pub proof fn lemma_closed_holds_reachable(
    m: Map<Index, Seq<Index>>,
    start: Index,
    result: Seq<Index>,
    p: Seq<Index>,
)
    requires
        closed_under(m, start, result),
        p.len() >= 2,
        p[0] == start,
        is_walk(m, p),
    ensures
        result.contains(p.last()),
    decreases p.len(),
{
    let k = p.len() - 2;
    assert(edge(m, p[k], p[k + 1]));
    if p.len() > 2 {
        let q = p.drop_last();
        assert forall|i: int| 0 <= i < q.len() - 1 implies #[trigger] edge(m, q[i], q[i + 1]) by {
            assert(edge(m, p[i], p[i + 1]));
        }
        lemma_closed_holds_reachable(m, start, result, q);
        assert(q.last() == p[k]);
    }
}

/// A walk from `a` to `u` followed by an edge from `u` to `v`.
pub proof fn lemma_reaches_step(m: Map<Index, Seq<Index>>, a: Index, u: Index, v: Index)
    requires
        u == a || reaches(m, a, u),
        edge(m, u, v),
    ensures
        reaches(m, a, v),
{
    if u == a {
        let p = seq![a, v];
        assert(edge(m, p[0], p[1]));
        assert(is_walk(m, p));
    } else {
        let p = choose|p: Seq<Index>|
            p.len() >= 2 && p[0] == a && p.last() == u && #[trigger] is_walk(m, p);
        let q = p.push(v);
        assert forall|i: int| 0 <= i < q.len() - 1 implies #[trigger] edge(m, q[i], q[i + 1]) by {
            if i < p.len() - 1 {
                assert(edge(m, p[i], p[i + 1]));
            }
        }
        assert(is_walk(m, q));
    }
}

/// A sequence without repeats inside a sequence without repeats is no longer.
pub proof fn lemma_unique_subseq_len<A>(small: Seq<A>, big: Seq<A>)
    requires
        small.no_duplicates(),
        big.no_duplicates(),
        forall|x: A| small.contains(x) ==> big.contains(x),
    ensures
        small.len() <= big.len(),
{
    small.unique_seq_to_set();
    big.unique_seq_to_set();
    assert(small.to_set().subset_of(big.to_set()));
    vstd::set_lib::lemma_len_subset(small.to_set(), big.to_set());
}

impl DependancyGraph {
    /// Every node that depends on `index`, directly or through others, once
    /// each.
    pub fn get_all_dependants(&self, index: Index) -> (r: Vec<Index>)
        requires
            self.wf(),
        ensures
            r@.no_duplicates(),
            forall|x: Index| #[trigger] r@.contains(x) <==> reaches(self@, index, x),
    {
        let ghost m = self@;
        let mut result: Vec<Index> = Vec::new();
        let mut to_process: Vec<Index> = Vec::new();
        to_process.push(index);
        assert(to_process@[0] == index);
        assert(to_process@.contains(index));
        while to_process.len() > 0
            invariant
                self.wf(),
                m == self@,
                result@.no_duplicates(),
                forall|x: Index| result@.contains(x) ==> self.keys@.contains(x),
                forall|x: Index| #[trigger] result@.contains(x) ==> reaches(m, index, x),
                forall|i: int|
                    0 <= i < to_process@.len() ==> #[trigger] to_process@[i] == index
                        || result@.contains(to_process@[i]),
                forall|u: Index, v: Index|
                    (u == index || result@.contains(u)) && !to_process@.contains(u)
                        && #[trigger] edge(m, u, v) ==> result@.contains(v),
            decreases self.keys@.len() - result@.len(), to_process@.len(),
        {
            proof {
                lemma_unique_subseq_len(result@, self.keys@);
            }
            let ghost result_before = result@;
            let ghost stack_before = to_process@;
            let cell = to_process.pop().unwrap();
            assert(stack_before == to_process@.push(cell));
            assert(cell == index || result@.contains(cell)) by {
                assert(stack_before[stack_before.len() - 1] == cell);
            }
            match self.find(cell) {
                None => {
                    proof {
                        assert forall|u: Index, v: Index|
                            (u == index || result@.contains(u)) && !to_process@.contains(u)
                                && #[trigger] edge(m, u, v) implies result@.contains(v) by {
                            if u != cell {
                                lemma_push_contains(to_process@, cell, u);
                            }
                        }
                    }
                },
                Some(p) => {
                    let n = self.allows_compute[p].len();
                    let mut q: usize = 0;
                    while q < n
                        invariant
                            self.wf(),
                            m == self@,
                            p < self.keys@.len(),
                            self.keys@[p as int] == cell,
                            pos_of(self.keys@, cell) == p,
                            n == self.allows_compute@[p as int]@.len(),
                            q <= n,
                            cell == index || result@.contains(cell),
                            result@.no_duplicates(),
                            result_before.len() <= result@.len(),
                            forall|x: Index| result_before.contains(x) ==> result@.contains(x),
                            forall|x: Index| result@.contains(x) ==> self.keys@.contains(x),
                            forall|x: Index| #[trigger] result@.contains(x) ==> reaches(m, index, x),
                            forall|i: int|
                                0 <= i < to_process@.len() ==> #[trigger] to_process@[i] == index
                                    || result@.contains(to_process@[i]),
                            forall|j: int|
                                0 <= j < q ==> result@.contains(
                                    #[trigger] self.allows_compute@[p as int]@[j],
                                ),
                            forall|u: Index, v: Index|
                                (u == index || result@.contains(u)) && !to_process@.contains(u)
                                    && u != cell && #[trigger] edge(m, u, v) ==> result@.contains(v),
                            result@.len() > result_before.len() || to_process@.len()
                                < stack_before.len(),
                        decreases n - q,
                    {
                        let dependant = self.allows_compute[p][q];
                        assert(self.keys@.contains(dependant));
                        if !contains_index(&result, dependant) {
                            proof {
                                assert(edge(m, cell, dependant)) by {
                                    assert(self@[cell] == self.allows_compute@[p as int]@);
                                    assert(self@[cell][q as int] == dependant);
                                }
                                lemma_reaches_step(m, index, cell, dependant);
                            }
                            let ghost r0 = result@;
                            let ghost s0 = to_process@;
                            result.push(dependant);
                            to_process.push(dependant);
                            proof {
                                assert forall|x: Index| #[trigger]
                                    result@.contains(x) implies reaches(m, index, x) by {
                                    lemma_push_contains(r0, dependant, x);
                                }
                                assert forall|x: Index|
                                    result@.contains(x) implies self.keys@.contains(x) by {
                                    lemma_push_contains(r0, dependant, x);
                                }
                                assert forall|x: Index|
                                    result_before.contains(x) implies result@.contains(x) by {
                                    lemma_push_contains(r0, dependant, x);
                                }
                                lemma_push_contains(r0, dependant, cell);
                                assert forall|j: int| 0 <= j <= q implies result@.contains(
                                    #[trigger] self.allows_compute@[p as int]@[j],
                                ) by {
                                    lemma_push_contains(r0, dependant, self.allows_compute@[p as int]@[j]);
                                }
                                assert forall|i: int|
                                    0 <= i < to_process@.len() implies #[trigger] to_process@[i]
                                    == index || result@.contains(to_process@[i]) by {
                                    lemma_push_contains(r0, dependant, to_process@[i]);
                                    if i < s0.len() {
                                        assert(to_process@[i] == s0[i]);
                                    }
                                }
                                assert forall|u: Index, v: Index|
                                    (u == index || result@.contains(u)) && !to_process@.contains(u)
                                        && u != cell && #[trigger] edge(m, u, v) implies result@.contains(
                                    v,
                                ) by {
                                    lemma_push_contains(r0, dependant, u);
                                    lemma_push_contains(r0, dependant, v);
                                    lemma_push_contains(s0, dependant, u);
                                }
                                assert(r0.len() < result@.len());
                            }
                        }
                        q = q + 1;
                    }
                    proof {
                        assert forall|u: Index, v: Index|
                            (u == index || result@.contains(u)) && !to_process@.contains(u)
                                && #[trigger] edge(m, u, v) implies result@.contains(v) by {
                            if u == cell {
                                let j = choose|j: int| 0 <= j < self@[u].len() && self@[u][j] == v;
                                assert(self@[u] == self.allows_compute@[p as int]@);
                                assert(result@.contains(self.allows_compute@[p as int]@[j]));
                            }
                        }
                    }
                },
            }
            proof {
                lemma_unique_subseq_len(result@, self.keys@);
            }
        }
        proof {
            assert forall|x: Index| reaches(m, index, x) implies #[trigger] result@.contains(x) by {
                let p = choose|p: Seq<Index>|
                    p.len() >= 2 && p[0] == index && p.last() == x && #[trigger] is_walk(m, p);
                assert(closed_under(m, index, result@));
                lemma_closed_holds_reachable(m, index, result@, p);
            }
        }
        result
    }
}

/// How many of the first `k` rows of `adj` that are not `done` list `v`.
pub open spec fn pending(adj: Seq<Vec<usize>>, done: Seq<bool>, v: usize, k: int) -> nat
    decreases k,
{
    if k <= 0 {
        0
    } else {
        pending(adj, done, v, k - 1) + if !done[k - 1] && adj[k - 1]@.contains(v) {
            1nat
        } else {
            0nat
        }
    }
}

proof fn lemma_pending_le(adj: Seq<Vec<usize>>, done: Seq<bool>, v: usize, k: int)
    requires
        k >= 0,
    ensures
        pending(adj, done, v, k) <= k,
    decreases k,
{
    if k > 0 {
        lemma_pending_le(adj, done, v, k - 1);
    }
}

/// No pending row lists `v` exactly when every row that lists it is done.
proof fn lemma_pending_zero(adj: Seq<Vec<usize>>, done: Seq<bool>, v: usize, k: int)
    requires
        k >= 0,
    ensures
        pending(adj, done, v, k) == 0 <==> forall|i: int|
            0 <= i < k ==> done[i] || !(#[trigger] adj[i]@.contains(v)),
    decreases k,
{
    if k > 0 {
        lemma_pending_zero(adj, done, v, k - 1);
        if pending(adj, done, v, k) == 0 {
            assert forall|i: int| 0 <= i < k implies done[i] || !(#[trigger] adj[i]@.contains(
                v,
            )) by {
                if i < k - 1 {
                    assert(pending(adj, done, v, k - 1) == 0);
                }
            }
        }
    }
}

/// Marking row `u` done removes its count.
proof fn lemma_pending_mark(adj: Seq<Vec<usize>>, done: Seq<bool>, v: usize, k: int, u: int)
    requires
        0 <= u < k <= done.len(),
        !done[u],
    ensures
        pending(adj, done.update(u, true), v, k) + (if adj[u]@.contains(v) {
            1nat
        } else {
            0nat
        }) == pending(adj, done, v, k),
    decreases k,
{
    if k - 1 > u {
        lemma_pending_mark(adj, done, v, k - 1, u);
    } else {
        lemma_pending_same(adj, done, done.update(u, true), v, k - 1);
    }
}

/// The count only looks at the first `k` marks.
proof fn lemma_pending_same(adj: Seq<Vec<usize>>, d1: Seq<bool>, d2: Seq<bool>, v: usize, k: int)
    requires
        0 <= k <= d1.len(),
        k <= d2.len(),
        forall|i: int| 0 <= i < k ==> d1[i] == d2[i],
    ensures
        pending(adj, d1, v, k) == pending(adj, d2, v, k),
    decreases k,
{
    if k > 0 {
        lemma_pending_same(adj, d1, d2, v, k - 1);
    }
}

impl DependancyGraph {
    /// Row `i` of `adj` lists, once each, the positions of the nodes that
    /// node `i` allows to compute.
    pub closed spec fn row_ok(&self, adj: Seq<Vec<usize>>, i: int) -> bool {
        &&& adj[i]@.no_duplicates()
        &&& forall|t: usize| #[trigger]
            adj[i]@.contains(t) <==> (t < self.keys@.len() && self.allows_compute@[i]@.contains(
                self.keys@[t as int],
            ))
    }

    /// What the sort leaves behind is a topological split of the graph.
    proof fn lemma_split(
        &self,
        adj: Seq<Vec<usize>>,
        deg: Seq<usize>,
        done: Seq<bool>,
        sp: Seq<usize>,
        sorted: Seq<Index>,
        cp: Seq<usize>,
        cycles: Seq<Index>,
    )
        requires
            self.wf(),
            self.keys@.len() <= usize::MAX,
            adj.len() == self.keys@.len(),
            forall|a: int| 0 <= a < self.keys@.len() ==> #[trigger] self.row_ok(adj, a),
            deg.len() == self.keys@.len(),
            done.len() == self.keys@.len(),
            forall|w: usize|
                w < self.keys@.len() ==> #[trigger] deg[w as int] == pending(
                    adj,
                    done,
                    w,
                    self.keys@.len() as int,
                ),
            forall|w: usize| w < self.keys@.len() && #[trigger] deg[w as int] == 0 ==> done[w as int],
            sp.no_duplicates(),
            forall|k: int| 0 <= k < sp.len() ==> #[trigger] sp[k] < self.keys@.len(),
            forall|w: usize|
                w < self.keys@.len() ==> (#[trigger] done[w as int] <==> sp.contains(w)),
            sorted.len() == sp.len(),
            forall|k: int| 0 <= k < sp.len() ==> #[trigger] sorted[k] == self.keys@[sp[k] as int],
            forall|k: int, a: int|
                0 <= k < sp.len() && 0 <= a < self.keys@.len() && #[trigger] adj[a]@.contains(
                    sp[k],
                ) ==> exists|j: int| 0 <= j < k && #[trigger] sp[j] == a,
            cycles.len() == cp.len(),
            forall|k: int| 0 <= k < cp.len() ==> #[trigger] cycles[k] == self.keys@[cp[k] as int],
            forall|k: int| 0 <= k < cp.len() ==> #[trigger] cp[k] < self.keys@.len(),
            forall|a: int, b: int| 0 <= a < b < cp.len() ==> cp[a] < cp[b],
            forall|w: usize|
                #[trigger] cp.contains(w) <==> (w < self.keys@.len() && deg[w as int] > 0),
        ensures
            is_topological_split(self@, sorted, cycles),
    {
        let keys = self.keys@;
        let n = keys.len() as int;
        // A node that is done has no pending row.
        assert forall|w: usize| w < n && #[trigger] done[w as int] implies deg[w as int] == 0 by {
            assert(sp.contains(w));
            let k = choose|k: int| 0 <= k < sp.len() && sp[k] == w;
            assert forall|a: int| 0 <= a < n implies done[a] || !(#[trigger] adj[a]@.contains(w)) by {
                if adj[a]@.contains(w) {
                    assert(adj[a]@.contains(sp[k]));
                    let j = choose|j: int| 0 <= j < k && #[trigger] sp[j] == a;
                    let au: usize = sp[j];
                    assert(sp.contains(au));
                    assert(done[au as int]);
                }
            }
            lemma_pending_zero(adj, done, w, n);
        }
        assert(sorted.no_duplicates()) by {
            assert forall|a: int, b: int| 0 <= a < b < sorted.len() implies sorted[a] != sorted[b] by {
                if sorted[a] == sorted[b] {
                    assert(keys[sp[a] as int] == keys[sp[b] as int]);
                }
            }
        }
        assert(cycles.no_duplicates()) by {
            assert forall|a: int, b: int| 0 <= a < b < cycles.len() implies cycles[a] != cycles[b] by {
                assert(cp[a] < cp[b]);
            }
        }
        assert forall|x: Index| #[trigger] sorted.contains(x) implies !cycles.contains(x) by {
            let k = choose|k: int| 0 <= k < sorted.len() && sorted[k] == x;
            if cycles.contains(x) {
                let c = choose|c: int| 0 <= c < cycles.len() && cycles[c] == x;
                assert(keys[sp[k] as int] == keys[cp[c] as int]);
                assert(sp[k] == cp[c]);
                let w: usize = sp[k];
                assert(sp.contains(w));
                assert(done[w as int]);
                assert(cp.contains(w));
            }
        }
        assert forall|x: Index|
            self@.contains_key(x) <==> (#[trigger] sorted.contains(x) || #[trigger] cycles.contains(
                x,
            )) by {
            if self@.contains_key(x) {
                let wi = choose|wi: int| 0 <= wi < n && keys[wi] == x;
                let w: usize = wi as usize;
                if done[w as int] {
                    assert(sp.contains(w));
                    let k = choose|k: int| 0 <= k < sp.len() && sp[k] == w;
                    assert(sorted[k] == x);
                } else {
                    assert(deg[w as int] != 0);
                    assert(cp.contains(w));
                    let k = choose|k: int| 0 <= k < cp.len() && cp[k] == w;
                    assert(cycles[k] == x);
                }
            }
            if sorted.contains(x) {
                let k = choose|k: int| 0 <= k < sorted.len() && sorted[k] == x;
                assert(keys.contains(keys[sp[k] as int]));
            }
            if cycles.contains(x) {
                let k = choose|k: int| 0 <= k < cycles.len() && cycles[k] == x;
                assert(keys.contains(keys[cp[k] as int]));
            }
        }
        assert forall|i: int, u: Index|
            0 <= i < sorted.len() && #[trigger] edge(self@, u, sorted[i]) implies exists|j: int|
                0 <= j < i && #[trigger] sorted[j] == u by {
            assert(keys.contains(u));
            let ai = choose|ai: int| 0 <= ai < n && keys[ai] == u;
            lemma_pos_of(keys, ai);
            assert(self.row_ok(adj, ai));
            assert(adj[ai]@.contains(sp[i]));
            let j = choose|j: int| 0 <= j < i && #[trigger] sp[j] == ai;
            assert(sorted[j] == u);
        }
        assert forall|v: Index| #[trigger] cycles.contains(v) implies exists|u: Index|
            cycles.contains(u) && #[trigger] edge(self@, u, v) by {
            let c = choose|c: int| 0 <= c < cycles.len() && cycles[c] == v;
            let w = cp[c];
            assert(cp.contains(w));
            lemma_pending_zero(adj, done, w, n);
            let ai = choose|ai: int| 0 <= ai < n && !(done[ai] || !(#[trigger] adj[ai]@.contains(w)));
            let a: usize = ai as usize;
            assert(!done[a as int]);
            assert(deg[a as int] != 0);
            assert(cp.contains(a));
            let k = choose|k: int| 0 <= k < cp.len() && cp[k] == a;
            let u = keys[ai];
            assert(cycles[k] == u);
            lemma_pos_of(keys, ai);
            assert(self.row_ok(adj, ai));
            assert(adj[ai]@.contains(w));
            assert(edge(self@, u, v));
        }
    }

    /// The positions of the nodes that node `i` allows to compute, once each.
    fn position_row(&self, i: usize) -> (row: Vec<usize>)
        requires
            self.wf(),
            i < self.keys@.len(),
        ensures
            row@.no_duplicates(),
            forall|t: usize| #[trigger]
                row@.contains(t) <==> (t < self.keys@.len() && self.allows_compute@[i as int]@.contains(
                    self.keys@[t as int],
                )),
    {
        let mut row: Vec<usize> = Vec::new();
        let n = self.allows_compute[i].len();
        let mut q: usize = 0;
        while q < n
            invariant
                self.wf(),
                i < self.keys@.len(),
                n == self.allows_compute@[i as int]@.len(),
                q <= n,
                row@.no_duplicates(),
                forall|t: usize| #[trigger]
                    row@.contains(t) <==> (t < self.keys@.len() && self.allows_compute@[i as int]@.take(q as int).contains(self.keys@[t as int])),
            decreases n - q,
        {
            let x = self.allows_compute[i][q];
            assert(self.keys@.contains(x));
            let p = match self.find(x) {
                Some(p) => p,
                None => {
                    assert(false);
                    0
                },
            };
            let ghost r0 = row@;
            let ghost list = self.allows_compute@[i as int]@;
            proof {
                assert(list.take(q + 1) =~= list.take(q as int).push(x));
            }
            if !contains_pos(&row, p) {
                row.push(p);
                proof {
                    assert forall|a: int, b: int|
                        0 <= a < b < row@.len() implies row@[a] != row@[b] by {
                        if b == r0.len() {
                            assert(r0.contains(r0[a]));
                        }
                    }
                }
            }
            proof {
                assert forall|t: usize| #[trigger]
                    row@.contains(t) <==> (t < self.keys@.len() && list.take(q + 1).contains(
                        self.keys@[t as int],
                    )) by {
                    lemma_push_contains(r0, p, t);
                    lemma_push_contains(list.take(q as int), x, self.keys@[t as int]);
                    if t < self.keys@.len() && self.keys@[t as int] == x {
                        lemma_pos_of(self.keys@, t as int);
                    }
                }
            }
            q = q + 1;
        }
        proof {
            assert(self.allows_compute@[i as int]@.take(n as int) =~= self.allows_compute@[i as int]@);
        }
        row
    }

    /// Orders the nodes so that each comes after the nodes that allow to
    /// compute it; the nodes that cannot be so ordered, because they lie on
    /// a cycle or after one, are returned apart.
    pub fn topological_sort(&self) -> (r: TopologicalSort)
        requires
            self.wf(),
        ensures
            is_topological_split(self@, r.sorted@, r.cycles@),
    {
        let n = self.keys.len();
        let ghost keys = self.keys@;
        // The rows, by position.
        let mut adj: Vec<Vec<usize>> = Vec::new();
        let mut i: usize = 0;
        while i < n
            invariant
                self.wf(),
                n == self.keys@.len(),
                i <= n,
                adj@.len() == i,
                forall|a: int| 0 <= a < i ==> #[trigger] self.row_ok(adj@, a),
            decreases n - i,
        {
            let row = self.position_row(i);
            let ghost a0 = adj@;
            adj.push(row);
            proof {
                assert forall|a: int| 0 <= a <= i implies #[trigger] self.row_ok(adj@, a) by {
                    if a < i {
                        assert(adj@[a] == a0[a]);
                        assert(self.row_ok(a0, a));
                    }
                }
            }
            i = i + 1;
        }
        // In-degrees, counting each node that allows to compute once.
        let ghost none_done = Seq::new(n as nat, |j: int| false);
        let mut deg: Vec<usize> = vec![0usize; n];
        let mut i: usize = 0;
        while i < n
            invariant
                self.wf(),
                n == self.keys@.len(),
                n == adj@.len(),
                forall|a: int| 0 <= a < n ==> #[trigger] self.row_ok(adj@, a),
                i <= n,
                deg@.len() == n,
                none_done.len() == n,
                forall|j: int| 0 <= j < n ==> !#[trigger] none_done[j],
                forall|v: usize|
                    v < n ==> #[trigger] deg@[v as int] == pending(adj@, none_done, v, i as int),
            decreases n - i,
        {
            let m = adj[i].len();
            let mut q: usize = 0;
            assert(self.row_ok(adj@, i as int));
            while q < m
                invariant
                    self.wf(),
                    n == self.keys@.len(),
                    n == adj@.len(),
                    i < n,
                    q <= m,
                    m == adj@[i as int]@.len(),
                    self.row_ok(adj@, i as int),
                    deg@.len() == n,
                    forall|v: usize|
                        v < n ==> #[trigger] deg@[v as int] == pending(adj@, none_done, v, i as int)
                            + if adj@[i as int]@.take(q as int).contains(v) {
                            1nat
                        } else {
                            0nat
                        },
                decreases m - q,
            {
                let t = adj[i][q];
                let ghost row = adj@[i as int]@;
                proof {
                    assert(row.contains(t));
                    assert(t < n);
                    assert(row.take(q + 1) =~= row.take(q as int).push(t));
                    assert(!row.take(q as int).contains(t)) by {
                        if row.take(q as int).contains(t) {
                            let j = choose|j: int| 0 <= j < q && row.take(q as int)[j] == t;
                            assert(row[j] == row[q as int]);
                        }
                    }
                    lemma_pending_le(adj@, none_done, t, i as int);
                }
                deg.set(t, deg[t] + 1);
                proof {
                    assert forall|v: usize| v < n implies #[trigger] deg@[v as int] == pending(
                        adj@,
                        none_done,
                        v,
                        i as int,
                    ) + if row.take(q + 1).contains(v) {
                        1nat
                    } else {
                        0nat
                    } by {
                        lemma_push_contains(row.take(q as int), t, v);
                    }
                }
                q = q + 1;
            }
            proof {
                assert(adj@[i as int]@.take(m as int) =~= adj@[i as int]@);
            }
            i = i + 1;
        }
        // Kahn's algorithm: take nodes whose count has dropped to zero.
        let mut done: Vec<bool> = vec![false; n];
        assert(done@ =~= none_done);
        let mut zero_in_degree: Vec<usize> = Vec::new();
        let mut v: usize = 0;
        while v < n
            invariant
                v <= n,
                deg@.len() == n,
                zero_in_degree@.no_duplicates(),
                forall|e: usize| #[trigger]
                    zero_in_degree@.contains(e) ==> e < v && deg@[e as int] == 0,
                forall|w: usize| w < v && deg@[w as int] == 0 ==> #[trigger] zero_in_degree@.contains(w),
            decreases n - v,
        {
            if deg[v] == 0 {
                let ghost z0 = zero_in_degree@;
                zero_in_degree.push(v);
                proof {
                    assert forall|a: int, b: int|
                        0 <= a < b < zero_in_degree@.len() implies zero_in_degree@[a]
                        != zero_in_degree@[b] by {
                        if b == z0.len() {
                            assert(z0.contains(z0[a]));
                        }
                    }
                    assert forall|e: usize| #[trigger]
                        zero_in_degree@.contains(e) implies e < v + 1 && deg@[e as int] == 0 by {
                        lemma_push_contains(z0, v, e);
                    }
                    assert forall|w: usize|
                        w < v + 1 && deg@[w as int] == 0 implies #[trigger] zero_in_degree@.contains(w) by {
                        lemma_push_contains(z0, v, w);
                    }
                }
            }
            v = v + 1;
        }
        let mut sorted: Vec<Index> = Vec::new();
        let ghost mut sp: Seq<usize> = Seq::empty();
        let ghost all_pos = Seq::new(n as nat, |j: int| j as usize);
        while zero_in_degree.len() > 0
            invariant
                self.wf(),
                keys == self.keys@,
                n == keys.len(),
                n == adj@.len(),
                forall|a: int| 0 <= a < n ==> #[trigger] self.row_ok(adj@, a),
                deg@.len() == n,
                done@.len() == n,
                all_pos.len() == n,
                all_pos.no_duplicates(),
                forall|j: int| 0 <= j < n ==> #[trigger] all_pos[j] == j,
                forall|w: usize|
                    w < n ==> #[trigger] deg@[w as int] == pending(adj@, done@, w, n as int),
                zero_in_degree@.no_duplicates(),
                forall|e: usize| #[trigger]
                    zero_in_degree@.contains(e) ==> e < n && !done@[e as int] && deg@[e as int]
                        == 0,
                forall|w: usize|
                    w < n && deg@[w as int] == 0 && !done@[w as int]
                        ==> #[trigger] zero_in_degree@.contains(w),
                sp.no_duplicates(),
                forall|k: int| 0 <= k < sp.len() ==> #[trigger] sp[k] < n,
                forall|w: usize| w < n ==> (done@[w as int] <==> #[trigger] sp.contains(w)),
                sorted@.len() == sp.len(),
                forall|k: int| 0 <= k < sp.len() ==> #[trigger] sorted@[k] == keys[sp[k] as int],
                forall|k: int, a: int|
                    0 <= k < sp.len() && 0 <= a < n && #[trigger] adj@[a]@.contains(sp[k])
                        ==> exists|j: int| 0 <= j < k && #[trigger] sp[j] == a,
            decreases n - sp.len(),
        {
            proof {
                assert forall|x: usize| sp.contains(x) implies all_pos.contains(x) by {
                    let k = choose|k: int| 0 <= k < sp.len() && sp[k] == x;
                    assert(all_pos[x as int] == x);
                }
                lemma_unique_subseq_len(sp, all_pos);
            }
            let ghost z0 = zero_in_degree@;
            let ghost done0 = done@;
            let ghost sp0 = sp;
            let u = zero_in_degree.pop().unwrap();
            proof {
                assert(z0 == zero_in_degree@.push(u));
                assert(z0[z0.len() - 1] == u);
                assert(z0.contains(u));
                assert(!zero_in_degree@.contains(u)) by {
                    if zero_in_degree@.contains(u) {
                        let j = choose|j: int| 0 <= j < zero_in_degree@.len() && zero_in_degree@[j] == u;
                        assert(z0[j] == z0[z0.len() - 1]);
                    }
                }
                lemma_pending_zero(adj@, done0, u, n as int);
                assert(!sp.contains(u));
                assert(self.row_ok(adj@, u as int));
                assert(!adj@[u as int]@.contains(u));
            }
            sorted.push(self.keys[u]);
            done.set(u, true);
            proof {
                sp = sp.push(u);
                assert forall|a: int, b: int| 0 <= a < b < sp.len() implies sp[a] != sp[b] by {
                    if b == sp0.len() {
                        assert(sp0.contains(sp0[a]));
                    }
                }
                assert forall|w: usize| w < n implies (done@[w as int] <==> #[trigger] sp.contains(w)) by {
                    lemma_push_contains(sp0, u, w);
                }
                assert forall|k: int| 0 <= k < sp.len() implies #[trigger] sorted@[k] == keys[sp[k] as int] by {
                    if k < sp0.len() {
                        assert(sp[k] == sp0[k]);
                    }
                }
                assert forall|k: int, a: int|
                    0 <= k < sp.len() && 0 <= a < n && #[trigger] adj@[a]@.contains(sp[k])
                        implies exists|j: int| 0 <= j < k && #[trigger] sp[j] == a by {
                    if k < sp0.len() {
                        assert(sp[k] == sp0[k]);
                        let j = choose|j: int| 0 <= j < k && #[trigger] sp0[j] == a;
                        assert(sp[j] == a);
                    } else {
                        assert(sp[k] == u);
                        assert(done0[a]);
                        assert(sp0.contains(a as usize));
                        let j = choose|j: int| 0 <= j < sp0.len() && sp0[j] == a as usize;
                        assert(sp[j] == a);
                    }
                }
                assert forall|w: usize| w < n implies #[trigger] deg@[w as int] == pending(
                    adj@,
                    done@,
                    w,
                    n as int,
                ) + if adj@[u as int]@.subrange(0, adj@[u as int]@.len() as int).contains(w) {
                    1nat
                } else {
                    0nat
                } by {
                    lemma_pending_mark(adj@, done0, w, n as int, u as int);
                    assert(done@ == done0.update(u as int, true));
                    assert(adj@[u as int]@.subrange(0, adj@[u as int]@.len() as int) =~= adj@[u as int]@);
                }
            }
            proof {
                assert forall|e: usize| #[trigger]
                    zero_in_degree@.contains(e) implies e < n && !done@[e as int] && deg@[e as int]
                    == 0 by {
                    lemma_push_contains(zero_in_degree@, u, e);
                }
                assert forall|w: usize|
                    w < n && deg@[w as int] == 0 && !done@[w as int] implies #[trigger] zero_in_degree@.contains(
                    w,
                ) by {
                    lemma_push_contains(zero_in_degree@, u, w);
                }
            }
            let m = adj[u].len();
            let mut q: usize = 0;
            while q < m
                invariant
                    self.wf(),
                    keys == self.keys@,
                    n == keys.len(),
                    n == adj@.len(),
                    forall|a: int| 0 <= a < n ==> #[trigger] self.row_ok(adj@, a),
                    u < n,
                    done@[u as int],
                    m == adj@[u as int]@.len(),
                    q <= m,
                    deg@.len() == n,
                    done@.len() == n,
                    forall|w: usize|
                        w < n ==> #[trigger] deg@[w as int] == pending(adj@, done@, w, n as int)
                            + if adj@[u as int]@.subrange(q as int, m as int).contains(w) {
                            1nat
                        } else {
                            0nat
                        },
                    zero_in_degree@.no_duplicates(),
                    forall|e: usize| #[trigger]
                        zero_in_degree@.contains(e) ==> e < n && !done@[e as int] && deg@[e as int]
                            == 0,
                    forall|w: usize|
                        w < n && deg@[w as int] == 0 && !done@[w as int]
                            ==> #[trigger] zero_in_degree@.contains(w),
                    sp.no_duplicates(),
                    sp.len() > 0,
                    sp[sp.len() - 1] == u,
                    forall|w: usize| w < n ==> (done@[w as int] <==> #[trigger] sp.contains(w)),
                    forall|k: int, a: int|
                        0 <= k < sp.len() && 0 <= a < n && #[trigger] adj@[a]@.contains(sp[k])
                            ==> exists|j: int| 0 <= j < k && #[trigger] sp[j] == a,
                decreases m - q,
            {
                let dependent = adj[u][q];
                let ghost row = adj@[u as int]@;
                let ghost z1 = zero_in_degree@;
                proof {
                    assert(self.row_ok(adj@, u as int));
                    assert(row.contains(dependent));
                    assert(dependent < n);
                    assert(row.subrange(q as int, m as int)[0] == dependent);
                    assert(row.subrange(q as int, m as int).contains(dependent));
                    assert(!done@[dependent as int]) by {
                        if done@[dependent as int] {
                            assert(sp.contains(dependent));
                            let k = choose|k: int| 0 <= k < sp.len() && sp[k] == dependent;
                            assert(adj@[u as int]@.contains(sp[k]));
                            let j = choose|j: int| 0 <= j < k && #[trigger] sp[j] == u as int;
                            assert(sp[j] == sp[sp.len() - 1]);
                        }
                    }
                    assert(row.subrange(q as int, m as int) =~= seq![dependent] + row.subrange(
                        q + 1,
                        m as int,
                    ));
                    assert(!row.subrange(q + 1, m as int).contains(dependent)) by {
                        if row.subrange(q + 1, m as int).contains(dependent) {
                            let j = choose|j: int|
                                0 <= j < m - q - 1 && #[trigger] row.subrange(q + 1, m as int)[j] == dependent;
                            assert(row[q + 1 + j] == row[q as int]);
                        }
                    }
                }
                deg.set(dependent, deg[dependent] - 1);
                proof {
                    assert forall|w: usize| w < n implies #[trigger] deg@[w as int] == pending(
                        adj@,
                        done@,
                        w,
                        n as int,
                    ) + if row.subrange(q + 1, m as int).contains(w) {
                        1nat
                    } else {
                        0nat
                    } by {
                        lemma_push_contains(seq![dependent], dependent, w);
                        if w != dependent {
                            if row.subrange(q as int, m as int).contains(w) {
                                let j = choose|j: int|
                                    0 <= j < m - q && #[trigger] row.subrange(q as int, m as int)[j] == w;
                                assert(j != 0);
                                assert(row.subrange(q + 1, m as int)[j - 1] == w);
                            }
                            if row.subrange(q + 1, m as int).contains(w) {
                                let j = choose|j: int|
                                    0 <= j < m - q - 1 && #[trigger] row.subrange(q + 1, m as int)[j] == w;
                                assert(row.subrange(q as int, m as int)[j + 1] == w);
                            }
                        }
                    }
                }
                if deg[dependent] == 0 {
                    zero_in_degree.push(dependent);
                    proof {
                        assert(!z1.contains(dependent));
                        assert forall|a: int, b: int|
                            0 <= a < b < zero_in_degree@.len() implies zero_in_degree@[a]
                            != zero_in_degree@[b] by {
                            if b == z1.len() {
                                assert(z1.contains(z1[a]));
                            }
                        }
                        assert forall|e: usize| #[trigger]
                            zero_in_degree@.contains(e) implies e < n && !done@[e as int]
                            && deg@[e as int] == 0 by {
                            lemma_push_contains(z1, dependent, e);
                        }
                        assert forall|w: usize|
                            w < n && deg@[w as int] == 0 && !done@[w as int]
                                implies #[trigger] zero_in_degree@.contains(w) by {
                            lemma_push_contains(z1, dependent, w);
                        }
                    }
                }
                q = q + 1;
            }
            proof {
                assert forall|w: usize| w < n implies #[trigger] deg@[w as int] == pending(
                    adj@,
                    done@,
                    w,
                    n as int,
                ) by {
                    assert(adj@[u as int]@.subrange(m as int, m as int) =~= Seq::<usize>::empty());
                }
                assert forall|x: usize| sp.contains(x) implies all_pos.contains(x) by {
                    let k = choose|k: int| 0 <= k < sp.len() && sp[k] == x;
                    assert(all_pos[x as int] == x);
                }
                lemma_unique_subseq_len(sp, all_pos);
            }
        }
        // What is left lies on a cycle or after one.
        let mut cycles: Vec<Index> = Vec::new();
        let ghost mut cp: Seq<usize> = Seq::empty();
        let mut v: usize = 0;
        while v < n
            invariant
                keys == self.keys@,
                n == keys.len(),
                v <= n,
                deg@.len() == n,
                cycles@.len() == cp.len(),
                forall|k: int| 0 <= k < cp.len() ==> #[trigger] cycles@[k] == keys[cp[k] as int],
                forall|k: int| 0 <= k < cp.len() ==> #[trigger] cp[k] < v,
                forall|a: int, b: int| 0 <= a < b < cp.len() ==> cp[a] < cp[b],
                forall|w: usize| #[trigger] cp.contains(w) <==> (w < v && deg@[w as int] > 0),
            decreases n - v,
        {
            if deg[v] > 0 {
                cycles.push(self.keys[v]);
                proof {
                    let cp0 = cp;
                    cp = cp.push(v);
                    assert forall|w: usize| #[trigger] cp.contains(w) <==> (w < v + 1 && deg@[w as int] > 0) by {
                        lemma_push_contains(cp0, v, w);
                    }
                    assert forall|k: int| 0 <= k < cp.len() implies #[trigger] cycles@[k] == keys[cp[k] as int] by {
                        if k < cp0.len() {
                            assert(cp[k] == cp0[k]);
                        }
                    }
                }
            } else {
                proof {
                    assert forall|w: usize| #[trigger] cp.contains(w) <==> (w < v + 1 && deg@[w as int] > 0) by {
                        if w == v {
                            assert(!cp.contains(w));
                        }
                    }
                }
            }
            v = v + 1;
        }
        proof {
            assert forall|w: usize| w < n && deg@[w as int] == 0 implies done@[w as int] by {
                if !done@[w as int] {
                    assert(zero_in_degree@.contains(w));
                }
            }
            self.lemma_split(adj@, deg@, done@, sp, sorted@, cp, cycles@);
        }
        TopologicalSort { sorted, cycles }
    }
}

/// What `drop_all` keeps is in the sequence and is not `x`.
pub proof fn lemma_drop_all_subset(s: Seq<Index>, x: Index, y: Index)
    ensures
        drop_all(s, x).contains(y) <==> (s.contains(y) && y != x),
    decreases s.len(),
{
    if s.len() > 0 {
        lemma_drop_all_subset(s.drop_last(), x, y);
        assert(s =~= s.drop_last().push(s.last()));
        lemma_push_contains(s.drop_last(), s.last(), y);
        if s.last() != x {
            lemma_push_contains(drop_all(s.drop_last(), x), s.last(), y);
        }
    }
}

/// What a sequence with one more element holds.
pub proof fn lemma_push_contains<A>(s: Seq<A>, a: A, y: A)
    ensures
        s.push(a).contains(y) <==> (s.contains(y) || a == y),
{
    if s.contains(y) {
        let j = choose|j: int| 0 <= j < s.len() && s[j] == y;
        assert(s.push(a)[j] == y);
    }
    if a == y {
        assert(s.push(a)[s.len() as int] == y);
    }
    if s.push(a).contains(y) {
        let j = choose|j: int| 0 <= j < s.push(a).len() && s.push(a)[j] == y;
        if j < s.len() {
            assert(s[j] == y);
        }
    }
}

/// Appending edges keeps every node; each new edge leads to `target`.
pub proof fn lemma_add_edges(
    m: Map<Index, Seq<Index>>,
    deps: Seq<Index>,
    target: Index,
    u: Index,
    v: Index,
)
    ensures
        m.contains_key(u) ==> add_edges(m, deps, target).contains_key(u),
        edge(add_edges(m, deps, target), u, v) ==> edge(m, u, v) || v == target,
    decreases deps.len(),
{
    if deps.len() > 0 {
        let m2 = add_edges(m, deps.drop_last(), target);
        lemma_add_edges(m, deps.drop_last(), target, u, v);
        if u == deps.last() && edge(add_edges(m, deps, target), u, v) && v != target {
            lemma_push_contains(succ_or_empty(m2, u), target, v);
        }
    }
}

/// Adding a cell keeps every node and makes the cell one; each new edge
/// leads to the cell.
pub proof fn lemma_added_node(m: Map<Index, Seq<Index>>, idx: Index, deps: Seq<Index>, u: Index, v: Index)
    ensures
        added_node(m, idx, deps).contains_key(idx),
        m.contains_key(u) ==> added_node(m, idx, deps).contains_key(u),
        edge(added_node(m, idx, deps), u, v) ==> edge(m, u, v) || v == idx,
{
    lemma_add_edges(with_node(m, idx), deps, idx, u, v);
    lemma_add_edges(with_node(m, idx), deps, idx, idx, v);
}

/// Removing the edges into `idx` keeps the nodes and the other edges.
pub proof fn lemma_removed_edges_to(m: Map<Index, Seq<Index>>, idx: Index, u: Index, v: Index)
    ensures
        removed_edges_to(m, idx).contains_key(u) == m.contains_key(u),
        edge(removed_edges_to(m, idx), u, v) <==> edge(m, u, v) && v != idx,
{
    if m.contains_key(u) {
        lemma_drop_all_subset(m[u], idx, v);
    }
}

/// Along a walk that ends at `order[i]`, every node is placed earlier in an
/// order where each node comes after the nodes with an edge into it.
proof fn lemma_walk_placed_before(
    m: Map<Index, Seq<Index>>,
    order: Seq<Index>,
    p: Seq<Index>,
    i: int,
    t: int,
) -> (q: int)
    requires
        preds_before(m, order),
        is_walk(m, p),
        0 <= t < p.len(),
        0 <= i < order.len(),
        order[i] == p.last(),
    ensures
        0 <= q <= i,
        order[q] == p[t],
        t < p.len() - 1 ==> q < i,
    decreases p.len() - t,
{
    if t == p.len() - 1 {
        i
    } else {
        let q1 = lemma_walk_placed_before(m, order, p, i, t + 1);
        assert(edge(m, p[t], p[t + 1]));
        assert(edge(m, p[t], order[q1]));
        let q = choose|j: int| 0 <= j < q1 && #[trigger] order[j] == p[t];
        q
    }
}

/// A node on a cycle of the graph is among the cycles of any topological
/// split of it: no order can place it after all the nodes it depends on.
pub proof fn law_cyclic_nodes_are_cycles(
    m: Map<Index, Seq<Index>>,
    sorted: Seq<Index>,
    cycles: Seq<Index>,
    x: Index,
)
    requires
        is_topological_split(m, sorted, cycles),
        reaches(m, x, x),
    ensures
        cycles.contains(x),
        !sorted.contains(x),
{
    let p = choose|p: Seq<Index>| p.len() >= 2 && p[0] == x && p.last() == x && #[trigger] is_walk(m, p);
    let z: int = 0;
    assert(is_walk(m, p));
    assert(edge(m, p[z], p[z + 1]));
    assert(m.contains_key(x));
    if sorted.contains(x) {
        let i = choose|i: int| 0 <= i < sorted.len() && sorted[i] == x;
        let q = lemma_walk_placed_before(m, sorted, p, i, 0);
        assert(sorted[q] == sorted[i]);
    }
}

/// Appending edges from each of `deps` to `target` adds exactly those
/// edges and makes each of `deps` a node.
pub proof fn lemma_add_edges_exact(
    m: Map<Index, Seq<Index>>,
    deps: Seq<Index>,
    target: Index,
    u: Index,
    v: Index,
)
    ensures
        add_edges(m, deps, target).contains_key(u) <==> m.contains_key(u) || deps.contains(u),
        edge(add_edges(m, deps, target), u, v) <==> edge(m, u, v) || (v == target && deps.contains(
            u,
        )),
    decreases deps.len(),
{
    if deps.len() > 0 {
        let d = deps.drop_last();
        let m2 = add_edges(m, d, target);
        lemma_add_edges_exact(m, d, target, u, v);
        assert(deps =~= d.push(deps.last()));
        lemma_push_contains(d, deps.last(), u);
        if u == deps.last() {
            lemma_push_contains(succ_or_empty(m2, u), target, v);
        }
    }
}

/// Adding a cell adds exactly the edges from the cells it refers to, and
/// makes it and each of them a node.
pub proof fn lemma_added_node_exact(
    m: Map<Index, Seq<Index>>,
    idx: Index,
    deps: Seq<Index>,
    u: Index,
    v: Index,
)
    ensures
        added_node(m, idx, deps).contains_key(u) <==> m.contains_key(u) || u == idx || deps.contains(
            u,
        ),
        edge(added_node(m, idx, deps), u, v) <==> edge(m, u, v) || (v == idx && deps.contains(u)),
{
    lemma_add_edges_exact(with_node(m, idx), deps, idx, u, v);
}

/// `u` lies on a cycle of the graph, or after one.
pub open spec fn on_or_after_cycle(m: Map<Index, Seq<Index>>, u: Index) -> bool {
    exists|c: Index| #[trigger] reaches(m, c, c) && (c == u || reaches(m, c, u))
}

/// Going back `n` times from `u` along edges, each time to a node of
/// `cycles` (which every node of `cycles` has).
proof fn lemma_back_chain(m: Map<Index, Seq<Index>>, cycles: Seq<Index>, u: Index, n: nat) -> (p: Seq<Index>)
    requires
        cycles.contains(u),
        forall|v: Index| #[trigger]
            cycles.contains(v) ==> exists|w: Index| cycles.contains(w) && #[trigger] edge(m, w, v),
    ensures
        p.len() == n + 1,
        p[0] == u,
        forall|t: int| 0 <= t < p.len() ==> cycles.contains(#[trigger] p[t]),
        forall|t: int| 0 <= t < n ==> #[trigger] edge(m, p[t + 1], p[t]),
    decreases n,
{
    if n == 0 {
        seq![u]
    } else {
        let q = lemma_back_chain(m, cycles, u, (n - 1) as nat);
        let last = q[n - 1];
        assert(cycles.contains(last));
        let w = choose|w: Index| cycles.contains(w) && #[trigger] edge(m, w, last);
        let p = q.push(w);
        assert forall|t: int| 0 <= t < n implies #[trigger] edge(m, p[t + 1], p[t]) by {
            if t < n - 1 {
                assert(edge(m, q[t + 1], q[t]));
            }
        }
        p
    }
}

/// The reversal of `p[i..=j]` walks forward along the graph.
proof fn lemma_back_segment_walk(m: Map<Index, Seq<Index>>, p: Seq<Index>, i: int, j: int)
    requires
        0 <= i < j < p.len(),
        forall|t: int| 0 <= t < p.len() - 1 ==> #[trigger] edge(m, p[t + 1], p[t]),
    ensures
        reaches(m, p[j], p[i]),
{
    let q = Seq::new((j - i + 1) as nat, |t: int| p[j - t]);
    assert forall|t: int| 0 <= t < q.len() - 1 implies #[trigger] edge(m, q[t], q[t + 1]) by {
        assert(q[t] == p[j - t]);
        assert(q[t + 1] == p[j - t - 1]);
        assert(edge(m, p[(j - t - 1) + 1], p[j - t - 1]));
    }
    assert(is_walk(m, q));
    assert(q[0] == p[j]);
    assert(q.last() == p[i]);
}

/// Every node that a topological split sets apart among the cycles lies on
/// a cycle of the graph or after one.
pub proof fn law_cycles_lie_on_or_after_cycles(
    m: Map<Index, Seq<Index>>,
    sorted: Seq<Index>,
    cycles: Seq<Index>,
    u: Index,
)
    requires
        is_topological_split(m, sorted, cycles),
        cycles.contains(u),
    ensures
        on_or_after_cycle(m, u),
{
    let n = cycles.len();
    let p = lemma_back_chain(m, cycles, u, n);
    if p.no_duplicates() {
        assert forall|x: Index| p.contains(x) implies cycles.contains(x) by {
            let t = choose|t: int| 0 <= t < p.len() && p[t] == x;
            assert(cycles.contains(p[t]));
        }
        lemma_unique_subseq_len(p, cycles);
        assert(false);
    }
    let (i, j) = choose|i: int, j: int| 0 <= i < p.len() && 0 <= j < p.len() && i != j && p[i] == p[j];
    let (a, b) = if i < j { (i, j) } else { (j, i) };
    assert forall|t: int| 0 <= t < p.len() - 1 implies #[trigger] edge(m, p[t + 1], p[t]) by {
        assert(t < n);
    }
    lemma_back_segment_walk(m, p, a, b);
    let c = p[b];
    assert(reaches(m, c, c));
    if b > 0 {
        lemma_back_segment_walk(m, p, 0, b);
    }
    assert(reaches(m, c, c) && (c == u || reaches(m, c, u)));
}


/// A node on a cycle of the graph, or after one, is not in the order part
/// of a topological split.
pub proof fn law_after_cycle_not_sorted(
    m: Map<Index, Seq<Index>>,
    sorted: Seq<Index>,
    cycles: Seq<Index>,
    u: Index,
)
    requires
        is_topological_split(m, sorted, cycles),
        on_or_after_cycle(m, u),
    ensures
        !sorted.contains(u),
{
    let c = choose|c: Index| #[trigger] reaches(m, c, c) && (c == u || reaches(m, c, u));
    law_cyclic_nodes_are_cycles(m, sorted, cycles, c);
    if c != u && sorted.contains(u) {
        let p = choose|p: Seq<Index>| p.len() >= 2 && p[0] == c && p.last() == u && #[trigger] is_walk(m, p);
        let i = choose|i: int| 0 <= i < sorted.len() && sorted[i] == u;
        let q = lemma_walk_placed_before(m, sorted, p, i, 0);
        assert(sorted[q] == c);
    }
}

/// A walk keeps being one in a graph with at least the same edges.
pub proof fn lemma_walk_mono(g1: Map<Index, Seq<Index>>, g2: Map<Index, Seq<Index>>, p: Seq<Index>)
    requires
        forall|u: Index, v: Index| #[trigger] edge(g1, u, v) ==> edge(g2, u, v),
        is_walk(g1, p),
    ensures
        is_walk(g2, p),
{
    assert forall|i: int| 0 <= i < p.len() - 1 implies #[trigger] edge(g2, p[i], p[i + 1]) by {
        assert(edge(g1, p[i], p[i + 1]));
    }
}

/// Lying on or after a cycle is kept in a graph with at least the same
/// edges.
pub proof fn lemma_after_cycle_mono(g1: Map<Index, Seq<Index>>, g2: Map<Index, Seq<Index>>, u: Index)
    requires
        forall|a: Index, b: Index| #[trigger] edge(g1, a, b) ==> edge(g2, a, b),
        on_or_after_cycle(g1, u),
    ensures
        on_or_after_cycle(g2, u),
{
    let c = choose|c: Index| #[trigger] reaches(g1, c, c) && (c == u || reaches(g1, c, u));
    let p = choose|p: Seq<Index>| p.len() >= 2 && p[0] == c && p.last() == c && #[trigger] is_walk(g1, p);
    lemma_walk_mono(g1, g2, p);
    assert(reaches(g2, c, c));
    if c != u {
        let q = choose|q: Seq<Index>| q.len() >= 2 && q[0] == c && q.last() == u && #[trigger] is_walk(g1, q);
        lemma_walk_mono(g1, g2, q);
        assert(reaches(g2, c, u));
    }
}

/// Reaching is transitive.
pub proof fn lemma_reaches_trans(m: Map<Index, Seq<Index>>, a: Index, b: Index, c: Index)
    requires
        reaches(m, a, b),
        reaches(m, b, c),
    ensures
        reaches(m, a, c),
{
    let p = choose|p: Seq<Index>| p.len() >= 2 && p[0] == a && p.last() == b && #[trigger] is_walk(m, p);
    let q = choose|q: Seq<Index>| q.len() >= 2 && q[0] == b && q.last() == c && #[trigger] is_walk(m, q);
    let w = p + q.skip(1);
    assert forall|i: int| 0 <= i < w.len() - 1 implies #[trigger] edge(m, w[i], w[i + 1]) by {
        if i < p.len() - 1 {
            assert(edge(m, p[i], p[i + 1]));
        } else {
            let k = i - (p.len() - 1);
            assert(edge(m, q[k], q[k + 1]));
        }
    }
    assert(is_walk(m, w));
    assert(w.last() == c);
}

/// The last place after the first where `p` holds `i`, or 0 if none.
proof fn lemma_last_hit(p: Seq<Index>, i: Index) -> (s: int)
    ensures
        0 <= s,
        s < p.len() || s == 0,
        s > 0 ==> p[s] == i,
        forall|t: int| s < t < p.len() && t >= 1 ==> #[trigger] p[t] != i,
    decreases p.len(),
{
    if p.len() <= 1 {
        0
    } else if p.last() == i {
        p.len() - 1
    } else {
        let s0 = lemma_last_hit(p.drop_last(), i);
        assert forall|t: int| s0 < t < p.len() && t >= 1 implies #[trigger] p[t] != i by {
            if t < p.len() - 1 {
                assert(p.drop_last()[t] == p[t]);
            }
        }
        s0
    }
}

/// A walk that does not come back to `i` is a walk once the edges into
/// `i` are removed.
proof fn lemma_walk_survives(m: Map<Index, Seq<Index>>, i: Index, p: Seq<Index>, s: int)
    requires
        is_walk(m, p),
        0 <= s < p.len(),
        forall|t: int| s < t < p.len() ==> #[trigger] p[t] != i,
    ensures
        is_walk(removed_edges_to(m, i), p.subrange(s, p.len() as int)),
{
    let q = p.subrange(s, p.len() as int);
    assert forall|k: int| 0 <= k < q.len() - 1 implies #[trigger] edge(removed_edges_to(m, i), q[k], q[k + 1]) by {
        assert(edge(m, p[s + k], p[s + k + 1]));
        lemma_removed_edges_to(m, i, q[k], q[k + 1]);
    }
}

/// Once the edges into `i` are removed, a node `u` other than `i` that lay
/// on or after a cycle still does, or is reached from `i`.
pub proof fn lemma_after_cycle_removed(m: Map<Index, Seq<Index>>, i: Index, u: Index)
    requires
        on_or_after_cycle(m, u),
        u != i,
    ensures
        on_or_after_cycle(removed_edges_to(m, i), u) || reaches(removed_edges_to(m, i), i, u),
{
    let r = removed_edges_to(m, i);
    let c = choose|c: Index| #[trigger] reaches(m, c, c) && (c == u || reaches(m, c, u));
    let pc = choose|p: Seq<Index>| p.len() >= 2 && p[0] == c && p.last() == c && #[trigger] is_walk(m, p);
    if c != u {
        let pu = choose|p: Seq<Index>| p.len() >= 2 && p[0] == c && p.last() == u && #[trigger] is_walk(m, p);
        let s2 = lemma_last_hit(pu, i);
        if s2 > 0 {
            lemma_walk_survives(m, i, pu, s2);
            let q = pu.subrange(s2, pu.len() as int);
            assert(q[0] == i && q.last() == u && q.len() >= 2);
            assert(reaches(r, i, u));
            return;
        }
        lemma_walk_survives(m, i, pu, 0);
        assert(pu.subrange(0, pu.len() as int) =~= pu);
        assert(reaches(r, c, u));
    }
    let s1 = lemma_last_hit(pc, i);
    if s1 == 0 {
        lemma_walk_survives(m, i, pc, 0);
        assert(pc.subrange(0, pc.len() as int) =~= pc);
        assert(reaches(r, c, c));
    } else if s1 < pc.len() - 1 {
        lemma_walk_survives(m, i, pc, s1);
        let q = pc.subrange(s1, pc.len() as int);
        assert(q[0] == i && q.last() == c && q.len() >= 2);
        assert(reaches(r, i, c));
        if c != u {
            lemma_reaches_trans(r, i, c, u);
        }
    } else {
        assert(c == i);
    }
}


/// Reaching is kept in a graph with at least the same edges.
pub proof fn lemma_reaches_mono(g1: Map<Index, Seq<Index>>, g2: Map<Index, Seq<Index>>, a: Index, b: Index)
    requires
        forall|u: Index, v: Index| #[trigger] edge(g1, u, v) ==> edge(g2, u, v),
        reaches(g1, a, b),
    ensures
        reaches(g2, a, b),
{
    let p = choose|p: Seq<Index>| p.len() >= 2 && p[0] == a && p.last() == b && #[trigger] is_walk(g1, p);
    lemma_walk_mono(g1, g2, p);
}


/// A cycle through `k` in a graph `g2` whose edges not into `i` are edges
/// of `g` is one of `g`, unless `k` is reached from `i` in `g2`.
pub proof fn lemma_new_cycle_through(
    g: Map<Index, Seq<Index>>,
    g2: Map<Index, Seq<Index>>,
    i: Index,
    k: Index,
)
    requires
        forall|u: Index, v: Index| #[trigger] edge(g2, u, v) && v != i ==> edge(g, u, v),
        reaches(g2, k, k),
    ensures
        reaches(g, k, k) || reaches(g2, i, k),
{
    let p = choose|p: Seq<Index>| p.len() >= 2 && p[0] == k && p.last() == k && #[trigger] is_walk(g2, p);
    let s = lemma_last_hit(p, i);
    if s > 0 {
        if s < p.len() - 1 {
            let q = p.subrange(s, p.len() as int);
            assert forall|t: int| 0 <= t < q.len() - 1 implies #[trigger] edge(g2, q[t], q[t + 1]) by {
                assert(edge(g2, p[s + t], p[s + t + 1]));
            }
            assert(is_walk(g2, q));
            assert(q[0] == i && q.last() == k);
        } else {
            assert(p[0] == i);
        }
    } else {
        assert forall|t: int| 0 <= t < p.len() - 1 implies #[trigger] edge(g, p[t], p[t + 1]) by {
            assert(edge(g2, p[t], p[t + 1]));
            assert(p[t + 1] != i);
        }
        assert(is_walk(g, p));
    }
}

} // verus!
