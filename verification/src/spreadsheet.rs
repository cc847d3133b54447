//! The sheet: cells by position, the graph of which cells refer to which,
//! and the computation of their values in dependency order.
use vstd::prelude::*;

use crate::ast_resolver::{
    ast_cells, evals, evaluates, lemma_evals_frame, lemma_valid_evals, resolves, valid, ASTResolver,
    Trace, VarContext,
};
use crate::common_types::{
    ast_view, error_text, shows, Cell, ComputeError, Index, Numeric, ParsedCell, Value,
};
use crate::dependancy_graph::{
    added_node, edge, is_topological_split, law_after_cycle_not_sorted,
    law_cycles_lie_on_or_after_cycles, lemma_added_node_exact, lemma_after_cycle_mono,
    lemma_after_cycle_removed, lemma_new_cycle_through, lemma_reaches_mono, lemma_reaches_step,
    law_cyclic_nodes_are_cycles, lemma_added_node, on_or_after_cycle,
    lemma_removed_edges_to, pos_of, reaches, removed_edges_to, DependancyGraph, TopologicalSort,
};
use crate::parser::{cell_outcome, parsed_wf, raw_readable, CellParser};

verus! {

#[derive(Debug)]
pub struct SpreadSheet<N> {
    indices: Vec<Index>,
    cells: Vec<Cell<N>>,
    dependencies: DependancyGraph,
}

impl<N> View for SpreadSheet<N> {
    type V = Map<Index, Cell<N>>;

    /// The cells by position.
    closed spec fn view(&self) -> Map<Index, Cell<N>> {
        Map::new(
            |k: Index| self.indices@.contains(k),
            |k: Index| self.cells@[pos_of(self.indices@, k)],
        )
    }
}

/// A cell as the sheet keeps it: its text is not empty, it has been read,
/// what it was read as is what its text reads as, and an expression in it
/// can be evaluated.
pub open spec fn cell_ok<N: Numeric>(c: Cell<N>) -> bool {
    &&& c.raw_representation@.len() > 0
    &&& c.parsed_representation matches Some(r) && cell_outcome(c.raw_representation@, r)
        && parsed_wf(r)
}

/// What a sheet whose cells are `m` shows as computed at `i`.
pub open spec fn computed_in<N>(m: Map<Index, Cell<N>>, i: Index) -> Option<
    Result<Value<N>, ComputeError>,
> {
    if m.contains_key(i) {
        m[i].computed_value
    } else {
        None
    }
}

/// `c` with the value `r` computed, and no computation pending.
pub open spec fn computed_cell<N>(c: Cell<N>, r: Option<Result<Value<N>, ComputeError>>) -> Cell<N> {
    Cell {
        needs_compute: false,
        raw_representation: c.raw_representation,
        parsed_representation: c.parsed_representation,
        computed_value: r,
    }
}

/// `c` with a computation pending.
pub open spec fn pending_cell<N>(c: Cell<N>) -> Cell<N> {
    Cell {
        needs_compute: true,
        raw_representation: c.raw_representation,
        parsed_representation: c.parsed_representation,
        computed_value: c.computed_value,
    }
}

/// `c` showing the cycle error (its computation stays pending).
pub open spec fn cyclic_cell<N>(c: Cell<N>) -> Cell<N> {
    Cell {
        needs_compute: c.needs_compute,
        raw_representation: c.raw_representation,
        parsed_representation: c.parsed_representation,
        computed_value: Some(Err(ComputeError::Cycle)),
    }
}

/// `r` is what the cell `c` computes to in the sheet `s`: an expression
/// evaluated against the values `s` shows, a value as it is, a text that
/// could not be read as its parse error, and nothing for an unread cell.
pub open spec fn compute_outcome<N: Numeric>(
    s: SpreadSheet<N>,
    c: Cell<N>,
    r: Option<Result<Value<N>, ComputeError>>,
) -> bool {
    match c.parsed_representation {
        Some(Ok(ParsedCell::Expr(e))) => r matches Some(v) && resolves(ast_view(e.ast), s, v),
        Some(Ok(ParsedCell::Value(v))) => r == Some(Ok::<Value<N>, ComputeError>(v)),
        Some(Err(e)) => r == Some(Err::<Value<N>, ComputeError>(ComputeError::ParseError(e.0))),
        None => r is None,
    }
}

/// `s2` is `s` after one step of computing: the cell at `idx`, if it is one
/// that needs computing, is computed against `s` (a sheet with one cell per
/// position, so that its lookups answer with its cells' values); nothing
/// else changes.
pub open spec fn compute_step<N: Numeric>(s: SpreadSheet<N>, idx: Index, s2: SpreadSheet<N>) -> bool {
    &&& s.cells_wf()
    &&& s2.graph() == s.graph()
    &&& if s@.contains_key(idx) && s@[idx].needs_compute {
        &&& compute_outcome(s, s@[idx], s2@[idx].computed_value)
        &&& s2@ == s@.insert(idx, computed_cell(s@[idx], s2@[idx].computed_value))
    } else {
        s2@ == s@
    }
}

/// `chain` are the sheets met while computing the cells of `sorted` one
/// after the other, starting from `s`.
pub open spec fn computes_along<N: Numeric>(
    s: SpreadSheet<N>,
    sorted: Seq<Index>,
    chain: Seq<SpreadSheet<N>>,
) -> bool {
    &&& chain.len() == sorted.len() + 1
    &&& chain[0] == s
    &&& forall|j: int| 0 <= j < sorted.len() ==> #[trigger] compute_step(chain[j], sorted[j], chain[j + 1])
}

/// The cells `m` after each cell of `cycles` that needs computing is given
/// the cycle error.
pub open spec fn cycles_marked<N>(m: Map<Index, Cell<N>>, cycles: Seq<Index>) -> Map<Index, Cell<N>> {
    Map::new(
        |k: Index| m.contains_key(k),
        |k: Index| if cycles.contains(k) && m[k].needs_compute {
            cyclic_cell(m[k])
        } else {
            m[k]
        },
    )
}

/// One run of `compute_all` from `s` to `s2`: the graph split into `sorted`
/// and `cycles`, the cells of `sorted` computed in that order through the
/// sheets `chain`, then the cells of `cycles` that still need computing
/// given the cycle error.
pub open spec fn compute_run<N: Numeric>(
    s: SpreadSheet<N>,
    sorted: Seq<Index>,
    cycles: Seq<Index>,
    chain: Seq<SpreadSheet<N>>,
    s2: SpreadSheet<N>,
) -> bool {
    &&& is_topological_split(s.graph(), sorted, cycles)
    &&& computes_along(s, sorted, chain)
    &&& s2@ == cycles_marked(chain.last()@, cycles)
    &&& s2.graph() == s.graph()
}

/// `s2` is what `compute_all` makes of `s`.
pub open spec fn computes_all<N: Numeric>(s: SpreadSheet<N>, s2: SpreadSheet<N>) -> bool {
    exists|sorted: Seq<Index>, cycles: Seq<Index>, chain: Seq<SpreadSheet<N>>|
        #[trigger] compute_run(s, sorted, cycles, chain, s2)
}

/// The cells an expression in `c` refers to (none for any other cell).
pub open spec fn deps_of<N>(c: Cell<N>) -> Seq<Index> {
    match c.parsed_representation {
        Some(Ok(ParsedCell::Expr(e))) => e.dependencies@,
        _ => Seq::empty(),
    }
}

/// `c1` and `c2` hold the same text, read the same way.
pub open spec fn same_reading<N>(c1: Cell<N>, c2: Cell<N>) -> bool {
    c1.raw_representation == c2.raw_representation && c1.parsed_representation
        == c2.parsed_representation
}

/// `c` is the cell `raw` after it was read: same text, not yet computed.
pub open spec fn same_reading_of<N: Numeric>(c: Cell<N>, raw: Cell<N>) -> bool {
    &&& c.raw_representation == raw.raw_representation
    &&& c.computed_value == raw.computed_value
    &&& c.needs_compute == raw.needs_compute
    &&& c.parsed_representation matches Some(r) && cell_outcome(raw.raw_representation@, r)
}

/// The cells `m` with each cell of `ds` marked as needing computation.
pub open spec fn marked_in<N>(m: Map<Index, Cell<N>>, ds: Seq<Index>) -> Map<Index, Cell<N>> {
    Map::new(
        |k: Index| m.contains_key(k),
        |k: Index| if ds.contains(k) {
            pending_cell(m[k])
        } else {
            m[k]
        },
    )
}

/// The cells `m` with every cell that depends on `i` in the graph `g`,
/// directly or through others, marked as needing computation.
pub open spec fn marked<N>(m: Map<Index, Cell<N>>, g: Map<Index, Seq<Index>>, i: Index) -> Map<
    Index,
    Cell<N>,
> {
    Map::new(
        |k: Index| m.contains_key(k),
        |k: Index| if reaches(g, i, k) {
            pending_cell(m[k])
        } else {
            m[k]
        },
    )
}

/// Some cell of `m` depends on `i` in the graph `g`.
pub open spec fn any_marked<N>(m: Map<Index, Cell<N>>, g: Map<Index, Seq<Index>>, i: Index) -> bool {
    exists|k: Index| m.contains_key(k) && #[trigger] reaches(g, i, k)
}

/// `s2` is the sheet with the cells `m` and the graph `g` after a run of
/// `compute_all`, if `run` holds, or as it is otherwise.
pub open spec fn settles<N: Numeric>(
    m: Map<Index, Cell<N>>,
    g: Map<Index, Seq<Index>>,
    run: bool,
    s2: SpreadSheet<N>,
) -> bool {
    if run {
        exists|mid: SpreadSheet<N>|
            #[trigger] computes_all(mid, s2) && mid.wf() && mid@ == m && mid.graph() == g
    } else {
        s2@ == m && s2.graph() == g
    }
}

/// A cell for `raw` as it is added: read, and computed with the value `c`
/// holds in the sheet `pre`.
pub open spec fn fresh_cell<N: Numeric>(raw: Seq<char>, pre: SpreadSheet<N>, c: Cell<N>) -> bool {
    &&& c.raw_representation@ == raw
    &&& c.parsed_representation matches Some(r) && cell_outcome(raw, r)
    &&& !c.needs_compute
    &&& pre.cells_wf()
    &&& compute_outcome(pre, c, c.computed_value)
}

/// `s2` is `s` after `add_cell_and_compute(index, raw)`, with `c` the new
/// cell and `pre` the sheet it was computed in.
pub open spec fn added_with<N: Numeric>(
    s: SpreadSheet<N>,
    index: Index,
    raw: Seq<char>,
    c: Cell<N>,
    pre: SpreadSheet<N>,
    s2: SpreadSheet<N>,
) -> bool {
    let g = added_node(s.graph(), index, deps_of(c));
    let m = s@.insert(index, c);
    &&& fresh_cell(raw, pre, c)
    &&& pre@ == s@
    &&& pre.graph() == g
    &&& settles(marked(m, g, index), g, any_marked(m, g, index), s2)
}

/// `s2` is what `add_cell_and_compute(index, raw)` makes of `s`: the cell
/// is read and computed against `s`, its node added to the graph with an
/// edge from each cell it refers to, the cell put at `index`, and, if any
/// cell depends on it, every such cell marked and `compute_all` run.
pub open spec fn adds_cell<N: Numeric>(
    s: SpreadSheet<N>,
    index: Index,
    raw: Seq<char>,
    s2: SpreadSheet<N>,
) -> bool {
    exists|c: Cell<N>, pre: SpreadSheet<N>| #[trigger] added_with(s, index, raw, c, pre, s2)
}

/// `s2` is `s` after `mutate_cell(index, raw)`, with `c` the new cell.
pub open spec fn mutated_with<N: Numeric>(
    s: SpreadSheet<N>,
    index: Index,
    raw: Seq<char>,
    c: Cell<N>,
    s2: SpreadSheet<N>,
) -> bool {
    let g = added_node(removed_edges_to(s.graph(), index), index, deps_of(c));
    let m = s@.insert(index, c);
    &&& fresh_cell(raw, s, c)
    &&& settles(marked(m, g, index), g, any_marked(m, g, index), s2)
}

/// `s2` is what `mutate_cell(index, raw)` makes of `s`: the new cell is read
/// and computed against `s`, the edges into it replaced by edges from the
/// cells it refers to, the cell put at `index`, and, if any cell depends
/// on it, every such cell marked and `compute_all` run.
pub open spec fn mutates_cell<N: Numeric>(
    s: SpreadSheet<N>,
    index: Index,
    raw: Seq<char>,
    s2: SpreadSheet<N>,
) -> bool {
    exists|c: Cell<N>| #[trigger] mutated_with(s, index, raw, c, s2)
}

/// `s2` is what `remove_cell(index)` makes of `s`: every cell that depends
/// on `index` is marked, the edges into `index` and the cell are removed,
/// and, if any cell was marked, `compute_all` is run.
pub open spec fn removes_cell<N: Numeric>(s: SpreadSheet<N>, index: Index, s2: SpreadSheet<N>) -> bool {
    settles(
        marked(s@, s.graph(), index).remove(index),
        removed_edges_to(s.graph(), index),
        any_marked(s@, s.graph(), index),
        s2,
    )
}

impl<N: Numeric> SpreadSheet<N> {
    /// The graph of which cells allow to compute which.
    pub closed spec fn graph(&self) -> Map<Index, Seq<Index>> {
        self.dependencies@
    }

    /// Each position holds one cell.
    pub closed spec fn cells_wf(&self) -> bool {
        &&& self.indices@.len() == self.cells@.len()
        &&& self.indices@.no_duplicates()
    }

    /// Each position holds one cell, each cell is as `cell_ok` says, every
    /// cell is a node of the graph, and every cell that the graph says may
    /// be computed from another is a cell of the sheet.
    pub closed spec fn wf(&self) -> bool {
        &&& self.cells_wf()
        &&& self.dependencies.wf()
        &&& forall|i: int| 0 <= i < self.cells@.len() ==> cell_ok(#[trigger] self.cells@[i])
        &&& forall|k: Index| #[trigger] self@.contains_key(k) ==> self.graph().contains_key(k)
        &&& forall|u: Index, v: Index| #[trigger] edge(self.graph(), u, v) ==> self@.contains_key(v)
    }

    /// What the sheet shows as computed at `i`.
    pub open spec fn computed_at(&self, i: Index) -> Option<Result<Value<N>, ComputeError>> {
        computed_in(self@, i)
    }

    /// The position in `indices` of the cell at `index`, if there is one.
    fn position(&self, index: Index) -> (r: Option<usize>)
        ensures
            match r {
                Some(j) => j < self.indices@.len() && self.indices@[j as int] == index,
                None => !self.indices@.contains(index),
            },
    {
        let mut j: usize = 0;
        while j < self.indices.len()
            invariant
                j <= self.indices@.len(),
                forall|k: int| 0 <= k < j ==> self.indices@[k] != index,
            decreases self.indices@.len() - j,
        {
            if self.indices[j] == index {
                return Some(j);
            }
            j = j + 1;
        }
        None
    }

    proof fn lemma_position(&self, j: int)
        requires
            self.cells_wf(),
            0 <= j < self.indices@.len(),
        ensures
            self@.contains_key(self.indices@[j]),
            self@[self.indices@[j]] == self.cells@[j],
    {
        lemma_pos_of_unique(self.indices@, j);
    }

    /// What is computed for the cell at `index`, if there is one.
    pub fn get_computed(&self, index: Index) -> (r: Option<Result<Value<N>, ComputeError>>)
        requires
            self.wf(),
        ensures
            r == self.computed_at(index),
    {
        match self.position(index) {
            Some(j) => {
                proof {
                    self.lemma_position(j as int);
                }
                match &self.cells[j].computed_value {
                    Some(Ok(v)) => Some(Ok(v.duplicate())),
                    Some(Err(e)) => Some(Err(e.duplicate())),
                    None => None,
                }
            },
            None => None,
        }
    }
}

impl<N: Numeric> SpreadSheet<N> {
    /// Changing the cell at position `j` changes the sheet at its index only.
    proof fn lemma_view_update(s1: Self, s2: Self, j: int)
        requires
            s1.indices@ == s2.indices@,
            s1.indices@.no_duplicates(),
            s1.indices@.len() == s1.cells@.len(),
            0 <= j < s1.cells@.len(),
            s2.cells@ == s1.cells@.update(j, s2.cells@[j]),
        ensures
            s2@ == s1@.insert(s1.indices@[j], s2.cells@[j]),
    {
        let ks = s1.indices@;
        assert forall|k: Index| #[trigger] s2@.contains_key(k) implies s2@[k] == s1@.insert(
            ks[j],
            s2.cells@[j],
        )[k] by {
            let t = choose|t: int| 0 <= t < ks.len() && ks[t] == k;
            lemma_pos_of_unique(ks, t);
        }
        lemma_pos_of_unique(ks, j);
        assert(s2@ =~= s1@.insert(ks[j], s2.cells@[j]));
    }

    /// Appending a cell at a new index adds it to the sheet.
    proof fn lemma_view_push(s1: Self, s2: Self, k: Index, c: Cell<N>)
        requires
            s1.cells_wf(),
            !s1.indices@.contains(k),
            s2.indices@ == s1.indices@.push(k),
            s2.cells@ == s1.cells@.push(c),
        ensures
            s2.cells_wf(),
            s2@ == s1@.insert(k, c),
    {
        let ks = s2.indices@;
        assert forall|a: int, b: int| 0 <= a < ks.len() && 0 <= b < ks.len() && a != b implies ks[a]
            != ks[b] by {
            if a == ks.len() - 1 {
                assert(s1.indices@[b] == ks[b]);
            } else if b == ks.len() - 1 {
                assert(s1.indices@[a] == ks[a]);
            }
        }
        assert forall|x: Index| #[trigger] s2@.contains_key(x) <==> s1@.insert(k, c).contains_key(x) by {
            crate::dependancy_graph::lemma_push_contains(s1.indices@, k, x);
        }
        assert forall|x: Index| #[trigger] s2@.contains_key(x) implies s2@[x] == s1@.insert(k, c)[x] by {
            let t = choose|t: int| 0 <= t < ks.len() && ks[t] == x;
            lemma_pos_of_unique(ks, t);
            if t < ks.len() - 1 {
                lemma_pos_of_unique(s1.indices@, t);
            }
        }
        assert(s2@ =~= s1@.insert(k, c));
    }

    /// Removing the cell at position `j` removes it from the sheet.
    proof fn lemma_view_remove(s1: Self, s2: Self, j: int)
        requires
            s1.cells_wf(),
            0 <= j < s1.indices@.len(),
            s2.indices@ == s1.indices@.remove(j),
            s2.cells@ == s1.cells@.remove(j),
        ensures
            s2.cells_wf(),
            s2@ == s1@.remove(s1.indices@[j]),
    {
        let ks = s1.indices@;
        let k2 = s2.indices@;
        assert forall|a: int, b: int| 0 <= a < k2.len() && 0 <= b < k2.len() && a != b implies k2[a]
            != k2[b] by {
            let a1 = if a < j { a } else { a + 1 };
            let b1 = if b < j { b } else { b + 1 };
            assert(k2[a] == ks[a1]);
            assert(k2[b] == ks[b1]);
        }
        assert forall|x: Index| #[trigger] s2@.contains_key(x) <==> s1@.remove(ks[j]).contains_key(x) by {
            if k2.contains(x) {
                let t = choose|t: int| 0 <= t < k2.len() && k2[t] == x;
                let t1 = if t < j { t } else { t + 1 };
                assert(ks[t1] == x);
            }
            if ks.contains(x) && x != ks[j] {
                let t = choose|t: int| 0 <= t < ks.len() && ks[t] == x;
                let t2 = if t < j { t } else { t - 1 };
                assert(k2[t2] == x);
            }
        }
        assert forall|x: Index| #[trigger] s2@.contains_key(x) implies s2@[x] == s1@.remove(ks[j])[x] by {
            let t = choose|t: int| 0 <= t < k2.len() && k2[t] == x;
            let t1 = if t < j { t } else { t + 1 };
            lemma_pos_of_unique(k2, t);
            lemma_pos_of_unique(ks, t1);
        }
        assert(s2@ =~= s1@.remove(ks[j]));
    }

    /// Puts `cell` at `index`, in place of the cell there if there is one.
    fn insert_cell(&mut self, index: Index, cell: Cell<N>)
        requires
            old(self).cells_wf(),
        ensures
            final(self).cells_wf(),
            final(self)@ == old(self)@.insert(index, cell),
            final(self).dependencies == old(self).dependencies,
            forall|i: int|
                0 <= i < final(self).cells@.len() ==> #[trigger] final(self).cells@[i] == cell
                    || old(self).cells@.contains(final(self).cells@[i]),
    {
        let ghost before = *self;
        match self.position(index) {
            Some(j) => {
                self.cells.set(j, cell);
                proof {
                    Self::lemma_view_update(before, *self, j as int);
                    assert forall|i: int| 0 <= i < self.cells@.len() && i != j implies before.cells@.contains(
                        self.cells@[i],
                    ) by {
                        assert(before.cells@[i] == self.cells@[i]);
                    }
                }
            },
            None => {
                self.indices.push(index);
                self.cells.push(cell);
                proof {
                    Self::lemma_view_push(before, *self, index, cell);
                    assert forall|i: int| 0 <= i < self.cells@.len() - 1 implies before.cells@.contains(
                        self.cells@[i],
                    ) by {
                        assert(before.cells@[i] == self.cells@[i]);
                    }
                }
            },
        }
    }

    /// Marks every cell that depends on `index`, directly or through
    /// others; tells whether there was any.
    fn mark_dependants(&mut self, index: Index) -> (need: bool)
        requires
            old(self).cells_wf(),
            old(self).dependencies.wf(),
        ensures
            final(self).cells_wf(),
            final(self).indices == old(self).indices,
            final(self).dependencies == old(self).dependencies,
            final(self)@ == marked(old(self)@, old(self).graph(), index),
            need == any_marked(old(self)@, old(self).graph(), index),
            forall|i: int|
                0 <= i < final(self).cells@.len() ==> same_reading(
                    #[trigger] final(self).cells@[i],
                    old(self).cells@[i],
                ),
    {
        let deps = self.dependencies.get_all_dependants(index);
        let ghost m = self@;
        let ghost g = self.graph();
        let ghost start = *self;
        let mut need = false;
        let mut t: usize = 0;
        while t < deps.len()
            invariant
                self.cells_wf(),
                self.indices == start.indices,
                self.dependencies == start.dependencies,
                self.cells@.len() == start.cells@.len(),
                m == start@,
                g == start.graph(),
                forall|x: Index| #[trigger] deps@.contains(x) <==> reaches(g, index, x),
                t <= deps@.len(),
                self@ == marked_in(m, deps@.take(t as int)),
                need == exists|k: Index| m.contains_key(k) && #[trigger] deps@.take(t as int).contains(k),
                forall|i: int|
                    0 <= i < self.cells@.len() ==> same_reading(
                        #[trigger] self.cells@[i],
                        start.cells@[i],
                    ),
            decreases deps@.len() - t,
        {
            let d = deps[t];
            let ghost before = *self;
            let ghost done = deps@.take(t as int);
            let ghost next = deps@.take(t + 1);
            proof {
                assert forall|x: Index| #[trigger] next.contains(x) <==> done.contains(x) || x == d by {
                    if next.contains(x) {
                        let q = choose|q: int| 0 <= q < next.len() && next[q] == x;
                        if q < t {
                            assert(done[q] == x);
                        }
                    }
                    if done.contains(x) {
                        let q = choose|q: int| 0 <= q < done.len() && done[q] == x;
                        assert(next[q] == x);
                    }
                    if x == d {
                        assert(next[t as int] == x);
                    }
                }
            }
            match self.position(d) {
                Some(j) => {
                    proof {
                        self.lemma_position(j as int);
                    }
                    self.cells[j].needs_compute = true;
                    need = true;
                    proof {
                        assert(self.cells@ == before.cells@.update(j as int, self.cells@[j as int]));
                        Self::lemma_view_update(before, *self, j as int);
                        assert(m.contains_key(d) && next.contains(d));
                        assert(self@ =~= marked_in(m, next));
                    }
                },
                None => {
                    proof {
                        assert(!m.contains_key(d));
                        assert(self@ =~= marked_in(m, next));
                        if exists|k: Index| m.contains_key(k) && #[trigger] next.contains(k) {
                            let k = choose|k: Index| m.contains_key(k) && #[trigger] next.contains(k);
                            assert(done.contains(k));
                        }
                        if exists|k: Index| m.contains_key(k) && #[trigger] done.contains(k) {
                            let k = choose|k: Index| m.contains_key(k) && #[trigger] done.contains(k);
                            assert(next.contains(k));
                        }
                    }
                },
            }
            t = t + 1;
        }
        proof {
            assert(deps@.take(deps@.len() as int) =~= deps@);
            assert(self@ =~= marked(m, g, index));
            if need {
                let k = choose|k: Index| m.contains_key(k) && #[trigger] deps@.contains(k);
                assert(reaches(g, index, k));
            }
            if any_marked(m, g, index) {
                let k = choose|k: Index| m.contains_key(k) && #[trigger] reaches(g, index, k);
                assert(deps@.contains(k));
            }
        }
        need
    }

    /// Records in the graph that the cell `cell` at `index` may be computed
    /// once each cell it refers to is.
    fn add_dependencies(&mut self, index: Index, cell: &Cell<N>)
        requires
            old(self).dependencies.wf(),
        ensures
            final(self).dependencies.wf(),
            final(self).graph() == added_node(old(self).graph(), index, deps_of(*cell)),
            final(self).indices == old(self).indices,
            final(self).cells == old(self).cells,
    {
        match &cell.parsed_representation {
            Some(Ok(ParsedCell::Expr(expr))) => {
                self.dependencies.add_node(index, &expr.dependencies);
            },
            _ => {
                let none: Vec<Index> = Vec::new();
                self.dependencies.add_node(index, &none);
                assert(none@ =~= Seq::<Index>::empty());
            },
        }
    }

    /// Replaces in the graph what the cell at `index` may be computed from
    /// by the cells that `cell` refers to.
    fn update_dependencies(&mut self, index: Index, cell: &Cell<N>)
        requires
            old(self).dependencies.wf(),
        ensures
            final(self).dependencies.wf(),
            final(self).graph() == added_node(
                removed_edges_to(old(self).graph(), index),
                index,
                deps_of(*cell),
            ),
            final(self).indices == old(self).indices,
            final(self).cells == old(self).cells,
    {
        match &cell.parsed_representation {
            Some(Ok(ParsedCell::Expr(expr))) => {
                self.dependencies.change_node(index, &expr.dependencies);
            },
            _ => {
                let none: Vec<Index> = Vec::new();
                self.dependencies.change_node(index, &none);
                assert(none@ =~= Seq::<Index>::empty());
            },
        }
    }

    /// What the cell `cell` computes to in this sheet.
    fn compute_cell(&self, cell: &Cell<N>) -> (r: Option<Result<Value<N>, ComputeError>>)
        requires
            cell.parsed_representation matches Some(p) && parsed_wf(p),
        ensures
            compute_outcome(*self, *cell, r),
    {
        match &cell.parsed_representation {
            Some(Ok(ParsedCell::Expr(expr))) => Some(ASTResolver::resolve(&expr.ast, self)),
            Some(Ok(ParsedCell::Value(value))) => Some(Ok(value.duplicate())),
            Some(Err(e)) => Some(Err(ComputeError::ParseError(e.0.clone()))),
            None => None,
        }
    }

    /// Computes, in dependency order, every cell that needs computing; the
    /// cells on a cycle of references, or after one, that need computing
    /// are given the cycle error.
    pub fn compute_all(&mut self)
        requires
            old(self).wf(),
        ensures
            final(self).wf(),
            computes_all(*old(self), *final(self)),
    {
        let TopologicalSort { sorted, cycles } = self.dependencies.topological_sort();
        let ghost start = *self;
        let ghost mut chain: Seq<SpreadSheet<N>> = seq![*self];
        let mut k: usize = 0;
        while k < sorted.len()
            invariant
                self.wf(),
                self.graph() == start.graph(),
                chain.len() == k + 1,
                chain[0] == start,
                chain[k as int] == *self,
                k <= sorted@.len(),
                forall|j: int| 0 <= j < k ==> #[trigger] compute_step(chain[j], sorted@[j], chain[j + 1]),
            decreases sorted@.len() - k,
        {
            let idx = sorted[k];
            let ghost before = *self;
            match self.position(idx) {
                Some(j) => {
                    proof {
                        self.lemma_position(j as int);
                    }
                    if self.cells[j].needs_compute {
                        let computed = self.compute_cell(&self.cells[j]);
                        let ghost r = computed;
                        self.cells[j].computed_value = computed;
                        self.cells[j].needs_compute = false;
                        proof {
                            assert(self.cells@[j as int] == computed_cell(before.cells@[j as int], r));
                            assert(self.cells@ == before.cells@.update(j as int, self.cells@[j as int]));
                            Self::lemma_view_update(before, *self, j as int);
                            assert forall|i: int| 0 <= i < self.cells@.len() implies cell_ok(
                                #[trigger] self.cells@[i],
                            ) by {
                                assert(cell_ok(before.cells@[i]));
                            }
                            assert(self@.dom() =~= before@.dom());
                        }
                    }
                },
                None => {},
            }
            proof {
                chain = chain.push(*self);
                assert(compute_step(chain[k as int], sorted@[k as int], chain[k + 1]));
            }
            k = k + 1;
        }
        let ghost last = *self;
        let mut c: usize = 0;
        while c < cycles.len()
            invariant
                self.wf(),
                self.graph() == start.graph(),
                self.indices@ == last.indices@,
                is_topological_split(start.graph(), sorted@, cycles@),
                c <= cycles@.len(),
                self@ == cycles_marked(last@, cycles@.take(c as int)),
            decreases cycles@.len() - c,
        {
            let idx = cycles[c];
            let ghost before = *self;
            match self.position(idx) {
                Some(j) => {
                    proof {
                        self.lemma_position(j as int);
                    }
                    if self.cells[j].needs_compute {
                        self.cells[j].computed_value = Some(Err(ComputeError::Cycle));
                        proof {
                            assert(self.cells@ == before.cells@.update(j as int, self.cells@[j as int]));
                            Self::lemma_view_update(before, *self, j as int);
                            assert forall|i: int| 0 <= i < self.cells@.len() implies cell_ok(
                                #[trigger] self.cells@[i],
                            ) by {
                                assert(cell_ok(before.cells@[i]));
                            }
                        }
                    }
                },
                None => {},
            }
            proof {
                let done = cycles@.take(c as int);
                let next = cycles@.take(c + 1);
                assert forall|x: Index| #[trigger] next.contains(x) <==> done.contains(x) || x == idx by {
                    if next.contains(x) {
                        let t = choose|t: int| 0 <= t < next.len() && next[t] == x;
                        if t < c {
                            assert(done[t] == x);
                        }
                    }
                    if done.contains(x) {
                        let t = choose|t: int| 0 <= t < done.len() && done[t] == x;
                        assert(next[t] == x);
                    }
                    if x == idx {
                        assert(next[c as int] == x);
                    }
                }
                assert(!done.contains(idx));
                assert(self@ =~= cycles_marked(last@, next));
            }
            c = c + 1;
        }
        proof {
            assert(cycles@.take(cycles@.len() as int) =~= cycles@);
            assert(compute_run(start, sorted@, cycles@, chain, *self));
        }
    }
}

impl<N: Numeric> SpreadSheet<N> {
    /// The cells kept are all as `cell_ok` says, given where they come from.
    proof fn lemma_cells_ok(s0: Self, s1: Self, s2: Self, c: Cell<N>)
        requires
            s0.wf(),
            cell_ok(c),
            s1.cells@.len() == s2.cells@.len(),
            forall|i: int|
                0 <= i < s1.cells@.len() ==> #[trigger] s1.cells@[i] == c || s0.cells@.contains(
                    s1.cells@[i],
                ),
            forall|i: int|
                0 <= i < s2.cells@.len() ==> same_reading(#[trigger] s2.cells@[i], s1.cells@[i]),
        ensures
            forall|i: int| 0 <= i < s2.cells@.len() ==> cell_ok(#[trigger] s2.cells@[i]),
    {
        assert forall|i: int| 0 <= i < s2.cells@.len() implies cell_ok(#[trigger] s2.cells@[i]) by {
            assert(same_reading(s2.cells@[i], s1.cells@[i]));
            if s1.cells@[i] != c {
                let t = choose|t: int| 0 <= t < s0.cells@.len() && s0.cells@[t] == s1.cells@[i];
                assert(cell_ok(s0.cells@[t]));
            }
        }
    }

    /// Reads `cell`, records what it may be computed from and puts it at
    /// `index`, without computing anything.
    pub(crate) fn parse_and_add_raw(&mut self, index: Index, cell: Cell<N>)
        requires
            old(self).wf(),
            cell.raw_representation@.len() > 0,
            raw_readable(cell.raw_representation@),
        ensures
            final(self).wf(),
            exists|c: Cell<N>|
                {
                    &&& same_reading_of(c, cell)
                    &&& final(self)@ == old(self)@.insert(index, c)
                    &&& final(self).graph() == added_node(old(self).graph(), index, deps_of(c))
                },
    {
        let ghost s0 = *self;
        let mut cell = cell;
        let ghost raw0 = cell;
        CellParser::parse_cell(&mut cell);
        self.add_dependencies(index, &cell);
        let ghost c = cell;
        self.insert_cell(index, cell);
        proof {
            Self::lemma_cells_ok(s0, *self, *self, c);
            self.lemma_graph_added(s0, index, deps_of(c));
            assert(same_reading_of(c, raw0));
        }
    }

    /// The nodes and edges of a graph with one more cell fit the sheet with
    /// that cell.
    proof fn lemma_graph_added(&self, s0: Self, index: Index, deps: Seq<Index>)
        requires
            s0.wf(),
            self.graph() == added_node(s0.graph(), index, deps),
            self@.dom() == s0@.dom().insert(index),
        ensures
            forall|k: Index| #[trigger] self@.contains_key(k) ==> self.graph().contains_key(k),
            forall|u: Index, v: Index| #[trigger] edge(self.graph(), u, v) ==> self@.contains_key(v),
    {
        assert forall|k: Index| #[trigger] self@.contains_key(k) implies self.graph().contains_key(k) by {
            lemma_added_node(s0.graph(), index, deps, k, k);
            if k != index {
                assert(s0@.contains_key(k));
            }
        }
        assert forall|u: Index, v: Index| #[trigger] edge(self.graph(), u, v) implies self@.contains_key(v) by {
            lemma_added_node(s0.graph(), index, deps, u, v);
            if v != index {
                assert(s0@.contains_key(v));
            }
        }
    }

    /// Puts a cell holding `raw` at `index`, computes it, and recomputes the
    /// cells that depend on it.
    pub fn add_cell_and_compute(&mut self, index: Index, raw: String)
        requires
            old(self).wf(),
            raw@.len() > 0,
            raw_readable(raw@),
        ensures
            final(self).wf(),
            adds_cell(*old(self), index, raw@, *final(self)),
            consistent(*old(self)) ==> consistent(*final(self)),
    {
        let ghost s0 = *self;
        let ghost raw_text = raw@;
        let mut cell = Cell::from_raw(raw);
        CellParser::parse_cell(&mut cell);
        self.add_dependencies(index, &cell);
        let ghost pre = *self;
        cell.computed_value = self.compute_cell(&cell);
        cell.needs_compute = false;
        let ghost c = cell;
        self.insert_cell(index, cell);
        let ghost inserted = *self;
        let need = self.mark_dependants(index);
        proof {
            Self::lemma_cells_ok(s0, inserted, *self, c);
            assert(self@.dom() =~= s0@.dom().insert(index));
            self.lemma_graph_added(s0, index, deps_of(c));
        }
        let ghost mid = *self;
        if need {
            self.compute_all();
        }
        proof {
            assert(added_with(s0, index, raw_text, c, pre, *self));
            if consistent(s0) {
                law_add_keeps_consistent(s0, index, raw_text, *self);
            }
        }
    }

    /// Removes the cell at `index` and recomputes the cells that depended
    /// on it.
    pub fn remove_cell(&mut self, index: Index)
        requires
            old(self).wf(),
        ensures
            final(self).wf(),
            removes_cell(*old(self), index, *final(self)),
            consistent(*old(self)) ==> consistent(*final(self)),
    {
        let ghost s0 = *self;
        let need = self.mark_dependants(index);
        let ghost marked_sheet = *self;
        self.dependencies.remove_node(index);
        match self.position(index) {
            Some(j) => {
                let ghost before = *self;
                self.indices.remove(j);
                self.cells.remove(j);
                proof {
                    Self::lemma_view_remove(before, *self, j as int);
                }
            },
            None => {
                proof {
                    assert(self@ =~= self@.remove(index));
                }
            },
        }
        proof {
            assert(self@ =~= marked(s0@, s0.graph(), index).remove(index));
            assert forall|i: int| 0 <= i < self.cells@.len() implies cell_ok(#[trigger] self.cells@[i]) by {
                let x = self.cells@[i];
                assert(self.indices@.contains(self.indices@[i]));
                self.lemma_position(i);
                let k = self.indices@[i];
                assert(marked_sheet@.contains_key(k));
                let t = choose|t: int| 0 <= t < marked_sheet.indices@.len() && marked_sheet.indices@[t] == k;
                marked_sheet.lemma_position(t);
                assert(same_reading(marked_sheet.cells@[t], s0.cells@[t]));
                assert(cell_ok(s0.cells@[t]));
            }
            assert forall|k: Index| #[trigger] self@.contains_key(k) implies self.graph().contains_key(k) by {
                lemma_removed_edges_to(s0.graph(), index, k, k);
            }
            assert forall|u: Index, v: Index| #[trigger] edge(self.graph(), u, v) implies self@.contains_key(v) by {
                lemma_removed_edges_to(s0.graph(), index, u, v);
            }
        }
        if need {
            self.compute_all();
        }
        proof {
            if consistent(s0) {
                law_remove_keeps_consistent(s0, index, *self);
            }
        }
    }

    /// Replaces the cell at `index` by one holding `new_raw`, computes it,
    /// and recomputes the cells that depend on it.
    pub fn mutate_cell(&mut self, index: Index, new_raw: String)
        requires
            old(self).wf(),
            old(self)@.contains_key(index),
            new_raw@.len() > 0,
            raw_readable(new_raw@),
        ensures
            final(self).wf(),
            mutates_cell(*old(self), index, new_raw@, *final(self)),
            consistent(*old(self)) ==> consistent(*final(self)),
    {
        let ghost s0 = *self;
        let ghost raw_text = new_raw@;
        let mut new_cell = Cell::from_raw(new_raw);
        CellParser::parse_cell(&mut new_cell);
        new_cell.computed_value = self.compute_cell(&new_cell);
        new_cell.needs_compute = false;
        self.update_dependencies(index, &new_cell);
        let ghost c = new_cell;
        self.insert_cell(index, new_cell);
        let ghost inserted = *self;
        let need = self.mark_dependants(index);
        proof {
            Self::lemma_cells_ok(s0, inserted, *self, c);
            assert(self@.dom() =~= s0@.dom());
            let g1 = removed_edges_to(s0.graph(), index);
            assert forall|k: Index| #[trigger] self@.contains_key(k) implies self.graph().contains_key(k) by {
                lemma_removed_edges_to(s0.graph(), index, k, k);
                lemma_added_node(g1, index, deps_of(c), k, k);
            }
            assert forall|u: Index, v: Index| #[trigger] edge(self.graph(), u, v) implies self@.contains_key(v) by {
                lemma_added_node(g1, index, deps_of(c), u, v);
                lemma_removed_edges_to(s0.graph(), index, u, v);
            }
        }
        if need {
            self.compute_all();
        }
        proof {
            assert(mutated_with(s0, index, raw_text, c, *self));
            if consistent(s0) {
                law_mutate_keeps_consistent(s0, index, raw_text, *self);
            }
        }
    }

    /// A cell's text is never empty.
    pub proof fn lemma_raw_not_empty(&self, index: Index)
        requires
            self.wf(),
            self@.contains_key(index),
        ensures
            self@[index].raw_representation@.len() > 0,
    {
        let t = choose|t: int| 0 <= t < self.indices@.len() && self.indices@[t] == index;
        self.lemma_position(t);
        assert(cell_ok(self.cells@[t]));
    }

    /// The text typed into the cell at `index`, if there is one.
    pub fn get_raw(&self, index: &Index) -> (r: Option<&str>)
        requires
            self.wf(),
        ensures
            match r {
                Some(t) => self@.contains_key(*index) && t@ == self@[*index].raw_representation@,
                None => !self@.contains_key(*index),
            },
    {
        match self.position(*index) {
            Some(j) => {
                proof {
                    self.lemma_position(j as int);
                }
                Some(self.cells[j].raw_representation.as_str())
            },
            None => None,
        }
    }

    /// How the cell at `index` is displayed: its value, its error, or
    /// nothing when there is no cell.
    pub fn get_text(&self, index: Index) -> (r: String)
        requires
            self.wf(),
        ensures
            match self.computed_at(index) {
                Some(Ok(v)) => shows(v, r),
                Some(Err(e)) => r@ == error_text(e),
                None => r@ == Seq::<char>::empty(),
            },
    {
        match self.get_computed(index) {
            Some(value) => match value {
                Ok(inner) => inner.to_text(),
                Err(err) => err.to_text(),
            },
            None => String::new(),
        }
    }
}

impl<N: Numeric> Default for SpreadSheet<N> {
    /// An empty sheet.
    fn default() -> (r: Self)
        ensures
            r.wf(),
            r@ == Map::<Index, Cell<N>>::empty(),
            r.graph() == Map::<Index, Seq<Index>>::empty(),
            consistent(r),
    {
        let r = SpreadSheet { indices: Vec::new(), cells: Vec::new(), dependencies: DependancyGraph::new() };
        assert(r@ =~= Map::<Index, Cell<N>>::empty());
        r
    }
}

/// Along a run of computing, each sheet has the cells of `s`, read as in
/// `s`; a cell of `sorted` once reached no longer needs computing; a cell
/// not yet reached is as in `s`.
proof fn lemma_run_prefix<N: Numeric>(
    s: SpreadSheet<N>,
    sorted: Seq<Index>,
    chain: Seq<SpreadSheet<N>>,
    t: int,
)
    requires
        computes_along(s, sorted, chain),
        0 <= t <= sorted.len(),
    ensures
        chain[t]@.dom() == s@.dom(),
        chain[t].graph() == s.graph(),
        forall|k: Index| #[trigger] s@.contains_key(k) ==> same_reading(chain[t]@[k], s@[k]),
        forall|j: int|
            0 <= j < t && s@.contains_key(#[trigger] sorted[j]) ==> !chain[t]@[sorted[j]].needs_compute,
        forall|k: Index|
            s@.contains_key(k) && !(#[trigger] sorted.take(t).contains(k)) ==> chain[t]@[k] == s@[k],
    decreases t,
{
    if t > 0 {
        lemma_run_prefix(s, sorted, chain, t - 1);
        let a = chain[t - 1];
        let b = chain[t];
        let idx = sorted[t - 1];
        assert(compute_step(chain[t - 1], sorted[t - 1], chain[t - 1 + 1]));
        if a@.contains_key(idx) && a@[idx].needs_compute {
            assert(b@.dom() =~= a@.dom());
        }
        assert forall|k: Index|
            s@.contains_key(k) && !(#[trigger] sorted.take(t).contains(k)) implies b@[k] == s@[k] by {
            if sorted.take(t - 1).contains(k) {
                let q = choose|q: int| 0 <= q < t - 1 && #[trigger] sorted.take(t - 1)[q] == k;
                assert(sorted.take(t)[q] == k);
            }
            assert(sorted.take(t)[t - 1] == idx);
        }
        assert forall|j: int|
            0 <= j < t && s@.contains_key(#[trigger] sorted[j]) implies !b@[sorted[j]].needs_compute by {
            if sorted[j] != idx {
                assert(!a@[sorted[j]].needs_compute);
            }
        }
    }
}

/// A run of `compute_all` keeps the cells and how each was read, and the
/// graph.
pub proof fn law_compute_keeps_texts<N: Numeric>(s: SpreadSheet<N>, s2: SpreadSheet<N>)
    requires
        computes_all(s, s2),
    ensures
        s2@.dom() == s@.dom(),
        s2.graph() == s.graph(),
        forall|k: Index| #[trigger] s@.contains_key(k) ==> same_reading(s2@[k], s@[k]),
{
    let (sorted, cycles, chain) = choose|sorted: Seq<Index>, cycles: Seq<Index>, chain: Seq<SpreadSheet<N>>|
        #[trigger] compute_run(s, sorted, cycles, chain, s2);
    lemma_run_prefix(s, sorted, chain, sorted.len() as int);
    assert(s2@.dom() =~= s@.dom());
}

/// After `compute_all`, a cell that still needs computing shows the cycle
/// error and lies on a cycle of references or after one: every other cell
/// was computed in dependency order.
pub proof fn law_compute_settles<N: Numeric>(s: SpreadSheet<N>, s2: SpreadSheet<N>, k: Index)
    requires
        s.wf(),
        computes_all(s, s2),
        s2@.contains_key(k),
        s2@[k].needs_compute,
    ensures
        s2@[k].computed_value == Some(Err::<Value<N>, ComputeError>(ComputeError::Cycle)),
        on_or_after_cycle(s.graph(), k),
{
    let (sorted, cycles, chain) = choose|sorted: Seq<Index>, cycles: Seq<Index>, chain: Seq<SpreadSheet<N>>|
        #[trigger] compute_run(s, sorted, cycles, chain, s2);
    let n = sorted.len() as int;
    lemma_run_prefix(s, sorted, chain, n);
    assert(sorted.take(n) =~= sorted);
    assert(chain.last() == chain[n]);
    assert(s@.contains_key(k));
    assert(s.graph().contains_key(k));
    if sorted.contains(k) {
        let j = choose|j: int| 0 <= j < sorted.len() && sorted[j] == k;
        assert(!chain[n]@[sorted[j]].needs_compute);
        assert(!cycles.contains(k));
    }
    law_cycles_lie_on_or_after_cycles(s.graph(), sorted, cycles, k);
}

/// A cell that lies on a cycle of references and needs computing shows
/// the cycle error after `compute_all`.
pub proof fn law_cyclic_cells_show_cycle<N: Numeric>(s: SpreadSheet<N>, s2: SpreadSheet<N>, x: Index)
    requires
        s.wf(),
        computes_all(s, s2),
        reaches(s.graph(), x, x),
        s@.contains_key(x),
        s@[x].needs_compute,
    ensures
        s2@[x].computed_value == Some(Err::<Value<N>, ComputeError>(ComputeError::Cycle)),
        s2@[x].needs_compute,
{
    let (sorted, cycles, chain) = choose|sorted: Seq<Index>, cycles: Seq<Index>, chain: Seq<SpreadSheet<N>>|
        #[trigger] compute_run(s, sorted, cycles, chain, s2);
    let n = sorted.len() as int;
    law_cyclic_nodes_are_cycles(s.graph(), sorted, cycles, x);
    lemma_run_prefix(s, sorted, chain, n);
    assert(sorted.take(n) =~= sorted);
    assert(chain.last() == chain[n]);
}

/// `compute_all` computes a cell only once every cell it refers to is up
/// to date: when the cell at `sorted[j]` is computed, no cell with an edge
/// into it needs computing.
pub proof fn law_computed_after_dependencies<N: Numeric>(
    s: SpreadSheet<N>,
    sorted: Seq<Index>,
    cycles: Seq<Index>,
    chain: Seq<SpreadSheet<N>>,
    s2: SpreadSheet<N>,
    j: int,
    u: Index,
)
    requires
        compute_run(s, sorted, cycles, chain, s2),
        0 <= j < sorted.len(),
        edge(s.graph(), u, sorted[j]),
        s@.contains_key(u),
    ensures
        chain[j]@.contains_key(u),
        !chain[j]@[u].needs_compute,
{
    lemma_run_prefix(s, sorted, chain, j);
    let q = choose|q: int| 0 <= q < j && #[trigger] sorted[q] == u;
    assert(s@.contains_key(sorted[q]));
}

/// The cells marked for computing are the cells there were, read as
/// before.
proof fn lemma_marked_keeps_texts<N>(m: Map<Index, Cell<N>>, g: Map<Index, Seq<Index>>, i: Index)
    ensures
        marked(m, g, i).dom() == m.dom(),
        forall|k: Index| #[trigger] m.contains_key(k) ==> same_reading(marked(m, g, i)[k], m[k]),
{
    assert(marked(m, g, i).dom() =~= m.dom());
}

/// What `settles` leaves has the cells of `m`, read as in `m`.
proof fn lemma_settles_keeps_texts<N: Numeric>(
    m: Map<Index, Cell<N>>,
    g: Map<Index, Seq<Index>>,
    run: bool,
    s2: SpreadSheet<N>,
)
    requires
        settles(m, g, run, s2),
    ensures
        s2@.dom() == m.dom(),
        forall|k: Index| #[trigger] m.contains_key(k) ==> same_reading(s2@[k], m[k]),
{
    if run {
        let mid = choose|mid: SpreadSheet<N>|
            #[trigger] computes_all(mid, s2) && mid.wf() && mid@ == m && mid.graph() == g;
        law_compute_keeps_texts(mid, s2);
    }
}

/// After `add_cell_and_compute(index, raw)` the sheet holds `raw` at
/// `index`, read as `raw` reads, and every other cell as before.
pub proof fn law_add_then_read<N: Numeric>(
    s: SpreadSheet<N>,
    index: Index,
    raw: Seq<char>,
    s2: SpreadSheet<N>,
)
    requires
        adds_cell(s, index, raw, s2),
    ensures
        s2@.dom() == s@.dom().insert(index),
        s2@[index].raw_representation@ == raw,
        s2@[index].parsed_representation matches Some(r) && cell_outcome(raw, r),
        forall|k: Index|
            #[trigger] s@.contains_key(k) && k != index ==> same_reading(s2@[k], s@[k]),
{
    let (c, pre) = choose|c: Cell<N>, pre: SpreadSheet<N>| #[trigger] added_with(s, index, raw, c, pre, s2);
    let g = added_node(s.graph(), index, deps_of(c));
    let m = s@.insert(index, c);
    lemma_marked_keeps_texts(m, g, index);
    lemma_settles_keeps_texts(marked(m, g, index), g, any_marked(m, g, index), s2);
    assert(m.contains_key(index));
    assert(s2@.dom() =~= s@.dom().insert(index));
    assert forall|k: Index| #[trigger] s@.contains_key(k) && k != index implies same_reading(
        s2@[k],
        s@[k],
    ) by {
        assert(m.contains_key(k));
    }
}

/// After `mutate_cell(index, raw)` the sheet holds `raw` at `index`, read
/// as `raw` reads, and every other cell as before.
pub proof fn law_mutate_then_read<N: Numeric>(
    s: SpreadSheet<N>,
    index: Index,
    raw: Seq<char>,
    s2: SpreadSheet<N>,
)
    requires
        s@.contains_key(index),
        mutates_cell(s, index, raw, s2),
    ensures
        s2@.dom() == s@.dom(),
        s2@[index].raw_representation@ == raw,
        s2@[index].parsed_representation matches Some(r) && cell_outcome(raw, r),
        forall|k: Index|
            #[trigger] s@.contains_key(k) && k != index ==> same_reading(s2@[k], s@[k]),
{
    let c = choose|c: Cell<N>| #[trigger] mutated_with(s, index, raw, c, s2);
    let g = added_node(removed_edges_to(s.graph(), index), index, deps_of(c));
    let m = s@.insert(index, c);
    lemma_marked_keeps_texts(m, g, index);
    lemma_settles_keeps_texts(marked(m, g, index), g, any_marked(m, g, index), s2);
    assert(m.contains_key(index));
    assert(s2@.dom() =~= s@.dom());
    assert forall|k: Index| #[trigger] s@.contains_key(k) && k != index implies same_reading(
        s2@[k],
        s@[k],
    ) by {
        assert(m.contains_key(k));
    }
}

/// After `remove_cell(index)` the sheet has no cell at `index` and every
/// other cell as before.
pub proof fn law_remove_then_read<N: Numeric>(s: SpreadSheet<N>, index: Index, s2: SpreadSheet<N>)
    requires
        removes_cell(s, index, s2),
    ensures
        s2@.dom() == s@.dom().remove(index),
        forall|k: Index|
            #[trigger] s@.contains_key(k) && k != index ==> same_reading(s2@[k], s@[k]),
{
    let g = s.graph();
    let m = marked(s@, g, index);
    lemma_marked_keeps_texts(s@, g, index);
    lemma_settles_keeps_texts(m.remove(index), removed_edges_to(g, index), any_marked(s@, g, index), s2);
    assert(s2@.dom() =~= s@.dom().remove(index));
    assert forall|k: Index| #[trigger] s@.contains_key(k) && k != index implies same_reading(
        s2@[k],
        s@[k],
    ) by {
        assert(m.remove(index).contains_key(k));
    }
}

/// A sheet answers the question for the cell at `i` with the value it
/// shows there.
pub proof fn law_sheet_answers<N: Numeric>(
    s: SpreadSheet<N>,
    i: Index,
    o: Option<Result<Value<N>, ComputeError>>,
)
    requires
        s.cells_wf(),
        crate::ast_resolver::var_result(s, i, o),
    ensures
        o == s.computed_at(i),
{
}


/// The values a sheet with the cells `m` shows, position by position.
pub open spec fn shown<N>(m: Map<Index, Cell<N>>) -> spec_fn(Index) -> Option<
    Result<Value<N>, ComputeError>,
> {
    |i: Index| computed_in(m, i)
}

/// `r` is what the cell `c` comes to when each cell it refers to has the
/// value shown in `m`: an expression evaluated with those values, a value
/// as it is, a text that could not be read as its parse error.
pub open spec fn evaluated_in<N: Numeric>(
    m: Map<Index, Cell<N>>,
    c: Cell<N>,
    r: Option<Result<Value<N>, ComputeError>>,
) -> bool {
    match c.parsed_representation {
        Some(Ok(ParsedCell::Expr(e))) => r matches Some(v) && evaluates(ast_view(e.ast), shown(m), v),
        Some(Ok(ParsedCell::Value(v))) => r == Some(Ok::<Value<N>, ComputeError>(v)),
        Some(Err(e)) => r == Some(Err::<Value<N>, ComputeError>(ComputeError::ParseError(e.0))),
        None => r is None,
    }
}

/// Every cell of `m` that needs no computing shows what it comes to with
/// the values `m` shows; every cell that does shows the cycle error and
/// lies on a cycle of references, or after one, in the graph `g`.
pub open spec fn settled<N: Numeric>(m: Map<Index, Cell<N>>, g: Map<Index, Seq<Index>>) -> bool {
    forall|k: Index| #[trigger]
        m.contains_key(k) ==> if m[k].needs_compute {
            &&& m[k].computed_value == Some(Err::<Value<N>, ComputeError>(ComputeError::Cycle))
            &&& on_or_after_cycle(g, k)
        } else {
            evaluated_in(m, m[k], m[k].computed_value)
        }
}

/// Each cell of `m` has in `g` an edge into it from every cell it refers
/// to.
pub open spec fn refs_in_graph<N>(m: Map<Index, Cell<N>>, g: Map<Index, Seq<Index>>) -> bool {
    forall|k: Index, u: Index|
        m.contains_key(k) && #[trigger] deps_of(m[k]).contains(u) ==> edge(g, u, k)
}

/// Every cell of `m` that lies on a cycle of references in `g` needs
/// computing.
pub open spec fn cycles_pending<N>(m: Map<Index, Cell<N>>, g: Map<Index, Seq<Index>>) -> bool {
    forall|k: Index| m.contains_key(k) && #[trigger] reaches(g, k, k) ==> m[k].needs_compute
}

/// The cells of `m` ready for a run of `compute_all` in the graph `g`: each
/// one that needs no computing shows what it comes to, and each one that
/// needs computing and that such a cell refers to shows the cycle error and
/// lies on or after a cycle.
pub open spec fn prepared<N: Numeric>(m: Map<Index, Cell<N>>, g: Map<Index, Seq<Index>>) -> bool {
    &&& forall|k: Index| #[trigger]
        m.contains_key(k) && !m[k].needs_compute ==> evaluated_in(m, m[k], m[k].computed_value)
    &&& forall|k: Index, u: Index|
        m.contains_key(k) && !m[k].needs_compute && m.contains_key(u) && m[u].needs_compute
            && #[trigger] deps_of(m[k]).contains(u) ==> m[u].computed_value == Some(
            Err::<Value<N>, ComputeError>(ComputeError::Cycle),
        ) && on_or_after_cycle(g, u)
}

/// A cell as the sheet keeps it refers to the cells its tree refers to.
proof fn lemma_cell_ok_deps<N: Numeric>(c: Cell<N>)
    requires
        cell_ok(c),
    ensures
        c.parsed_representation matches Some(Ok(ParsedCell::Expr(e))) ==> deps_of(c) == ast_cells(
            ast_view(e.ast),
        ),
{
}

/// An evaluation of a cell depends only on the values of the cells it
/// refers to.
proof fn lemma_evaluated_frame<N: Numeric>(
    m1: Map<Index, Cell<N>>,
    m2: Map<Index, Cell<N>>,
    c: Cell<N>,
    r: Option<Result<Value<N>, ComputeError>>,
)
    requires
        cell_ok(c),
        evaluated_in(m1, c, r),
        forall|u: Index| #[trigger] deps_of(c).contains(u) ==> computed_in(m1, u) == computed_in(m2, u),
    ensures
        evaluated_in(m2, c, r),
{
    lemma_cell_ok_deps(c);
    match c.parsed_representation {
        Some(Ok(ParsedCell::Expr(e))) => {
            let a = ast_view(e.ast);
            let v = r->Some_0;
            let t = choose|t: Trace<N>| #[trigger] evals(a, shown(m1), t, v);
            assert forall|x: Index| #[trigger] ast_cells(a).contains(x) implies shown(m1)(x) == shown(
                m2,
            )(x) by {
                assert(deps_of(c).contains(x));
            }
            lemma_evals_frame(a, shown(m1), shown(m2), t, v);
        },
        _ => {},
    }
}

/// What a cell is computed to against a sheet (its expression resolved
/// against the sheet) is what it comes to with the values the sheet shows.
pub proof fn law_computed_is_evaluated<N: Numeric>(
    s: SpreadSheet<N>,
    c: Cell<N>,
    r: Option<Result<Value<N>, ComputeError>>,
)
    requires
        s.cells_wf(),
        compute_outcome(s, c, r),
    ensures
        evaluated_in(s@, c, r),
{
    match c.parsed_representation {
        Some(Ok(ParsedCell::Expr(e))) => {
            let a = ast_view(e.ast);
            let v = r->Some_0;
            let t = choose|t: Trace<N>| #[trigger] valid(a, s, t, v);
            assert forall|i: Index, o: Option<Result<Value<N>, ComputeError>>| #[trigger]
                crate::ast_resolver::var_result(s, i, o) implies o == shown(s@)(i) by {
                law_sheet_answers(s, i, o);
            }
            lemma_valid_evals(a, s, shown(s@), t, v);
        },
        _ => {},
    }
}

impl<N: Numeric> SpreadSheet<N> {
    /// Every cell of a well formed sheet is as `cell_ok` says.
    proof fn lemma_cells_ok_view(&self)
        requires
            self.wf(),
        ensures
            forall|k: Index| #[trigger] self@.contains_key(k) ==> cell_ok(self@[k]),
    {
        assert forall|k: Index| #[trigger] self@.contains_key(k) implies cell_ok(self@[k]) by {
            let t = choose|t: int| 0 <= t < self.indices@.len() && self.indices@[t] == k;
            self.lemma_position(t);
            assert(cell_ok(self.cells@[t]));
        }
    }
}

/// Along a run of computing from a prepared sheet, each sheet met shows,
/// for each cell needing no computing, what it comes to; and each cell
/// needing computing that such a cell refers to shows the cycle error and
/// is not one the run computes.
proof fn lemma_chain_evaluated<N: Numeric>(
    s: SpreadSheet<N>,
    sorted: Seq<Index>,
    cycles: Seq<Index>,
    chain: Seq<SpreadSheet<N>>,
    s2: SpreadSheet<N>,
    t: int,
)
    requires
        s.wf(),
        refs_in_graph(s@, s.graph()),
        prepared(s@, s.graph()),
        compute_run(s, sorted, cycles, chain, s2),
        0 <= t <= sorted.len(),
    ensures
        forall|k: Index| #[trigger]
            chain[t]@.contains_key(k) && !chain[t]@[k].needs_compute ==> evaluated_in(
                chain[t]@,
                chain[t]@[k],
                chain[t]@[k].computed_value,
            ),
        forall|k: Index, u: Index|
            chain[t]@.contains_key(k) && !chain[t]@[k].needs_compute && chain[t]@.contains_key(u)
                && chain[t]@[u].needs_compute && #[trigger] deps_of(chain[t]@[k]).contains(u)
                ==> chain[t]@[u].computed_value == Some(
                Err::<Value<N>, ComputeError>(ComputeError::Cycle),
            ) && !sorted.contains(u),
    decreases t,
{
    let g = s.graph();
    s.lemma_cells_ok_view();
    lemma_run_prefix(s, sorted, chain, t);
    if t == 0 {
        assert forall|k: Index, u: Index|
            chain[t]@.contains_key(k) && !chain[t]@[k].needs_compute && chain[t]@.contains_key(u)
                && chain[t]@[u].needs_compute && #[trigger] deps_of(chain[t]@[k]).contains(u)
                implies chain[t]@[u].computed_value == Some(
            Err::<Value<N>, ComputeError>(ComputeError::Cycle),
        ) && !sorted.contains(u) by {
            law_after_cycle_not_sorted(g, sorted, cycles, u);
        }
    } else {
        lemma_chain_evaluated(s, sorted, cycles, chain, s2, t - 1);
        lemma_run_prefix(s, sorted, chain, t - 1);
        let a = chain[t - 1]@;
        let b = chain[t]@;
        let idx = sorted[t - 1];
        assert(compute_step(chain[t - 1], sorted[t - 1], chain[t - 1 + 1]));
        if a.contains_key(idx) && a[idx].needs_compute {
            let r = b[idx].computed_value;
            assert(b == a.insert(idx, computed_cell(a[idx], r)));
            law_computed_is_evaluated(chain[t - 1], a[idx], r);
            assert(cell_ok(a[idx])) by {
                assert(cell_ok(s@[idx]));
            }
            assert forall|k: Index| #[trigger]
                b.contains_key(k) && !b[k].needs_compute implies evaluated_in(
                b,
                b[k],
                b[k].computed_value,
            ) by {
                assert(cell_ok(s@[k]));
                assert(cell_ok(a[k]));
                if k == idx {
                    assert forall|u: Index| #[trigger] deps_of(a[idx]).contains(u) implies computed_in(
                        a,
                        u,
                    ) == computed_in(b, u) by {
                        assert(deps_of(s@[idx]).contains(u));
                        assert(edge(g, u, idx));
                        assert(edge(g, u, sorted[t - 1]));
                        let q = choose|q: int| 0 <= q < t - 1 && #[trigger] sorted[q] == u;
                    }
                    lemma_evaluated_frame(a, b, a[idx], r);
                } else {
                    assert forall|u: Index| #[trigger] deps_of(a[k]).contains(u) implies computed_in(
                        a,
                        u,
                    ) == computed_in(b, u) by {
                        if u == idx {
                            assert(sorted.contains(idx));
                        }
                    }
                    lemma_evaluated_frame(a, b, a[k], a[k].computed_value);
                }
            }
            assert forall|k: Index, u: Index|
                b.contains_key(k) && !b[k].needs_compute && b.contains_key(u) && b[u].needs_compute
                    && #[trigger] deps_of(b[k]).contains(u) implies b[u].computed_value == Some(
                Err::<Value<N>, ComputeError>(ComputeError::Cycle),
            ) && !sorted.contains(u) by {
                if k == idx {
                    assert(deps_of(s@[idx]).contains(u));
                    assert(edge(g, u, sorted[t - 1]));
                    let q = choose|q: int| 0 <= q < t - 1 && #[trigger] sorted[q] == u;
                    assert(s@.contains_key(sorted[q]));
                } else {
                    assert(deps_of(a[k]).contains(u));
                }
            }
        } else {
            assert(b == a);
        }
    }
}

/// A run of `compute_all` from a prepared sheet leaves it settled.
proof fn lemma_run_settles<N: Numeric>(s: SpreadSheet<N>, s2: SpreadSheet<N>)
    requires
        s.wf(),
        refs_in_graph(s@, s.graph()),
        prepared(s@, s.graph()),
        computes_all(s, s2),
    ensures
        settled(s2@, s2.graph()),
        cycles_pending(s@, s.graph()) ==> cycles_pending(s2@, s2.graph()),
{
    let (sorted, cycles, chain) = choose|sorted: Seq<Index>, cycles: Seq<Index>, chain: Seq<SpreadSheet<N>>|
        #[trigger] compute_run(s, sorted, cycles, chain, s2);
    let n = sorted.len() as int;
    lemma_chain_evaluated(s, sorted, cycles, chain, s2, n);
    lemma_run_prefix(s, sorted, chain, n);
    s.lemma_cells_ok_view();
    assert(chain.last() == chain[n]);
    let mn = chain[n]@;
    assert forall|k: Index| #[trigger] s2@.contains_key(k) implies (if s2@[k].needs_compute {
        &&& s2@[k].computed_value == Some(Err::<Value<N>, ComputeError>(ComputeError::Cycle))
        &&& on_or_after_cycle(s2.graph(), k)
    } else {
        evaluated_in(s2@, s2@[k], s2@[k].computed_value)
    }) by {
        if s2@[k].needs_compute {
            law_compute_settles(s, s2, k);
        } else {
            assert(s2@[k] == mn[k]);
            assert(cell_ok(s@[k]));
            assert(cell_ok(mn[k]));
            assert forall|u: Index| #[trigger] deps_of(mn[k]).contains(u) implies computed_in(
                mn,
                u,
            ) == computed_in(s2@, u) by {
            }
            lemma_evaluated_frame(mn, s2@, mn[k], mn[k].computed_value);
        }
    }
    if cycles_pending(s@, s.graph()) {
        assert forall|k: Index| s2@.contains_key(k) && #[trigger] reaches(s2.graph(), k, k) implies s2@[k].needs_compute by {
            assert(s@.contains_key(k));
            law_cyclic_cells_show_cycle(s, s2, k);
        }
    }
}


/// The sheet `s` is consistent: every cell that needs no computing shows
/// what it comes to with the values the sheet shows, every cell that does
/// shows the cycle error and lies on a cycle of references or after one,
/// every cell on a cycle needs computing, and the graph has an edge into
/// each cell from every cell it refers to.
pub open spec fn consistent<N: Numeric>(s: SpreadSheet<N>) -> bool {
    &&& settled(s@, s.graph())
    &&& cycles_pending(s@, s.graph())
    &&& refs_in_graph(s@, s.graph())
}

/// What `settles` makes of cells ready for computing is consistent, given
/// that, when it runs no computing, the cells needing computing show the
/// cycle error and lie on or after a cycle.
proof fn lemma_settles_consistent<N: Numeric>(
    m: Map<Index, Cell<N>>,
    g: Map<Index, Seq<Index>>,
    run: bool,
    s2: SpreadSheet<N>,
)
    requires
        prepared(m, g),
        refs_in_graph(m, g),
        cycles_pending(m, g),
        settles(m, g, run, s2),
        !run ==> forall|k: Index| #[trigger]
            m.contains_key(k) && m[k].needs_compute ==> m[k].computed_value == Some(
                Err::<Value<N>, ComputeError>(ComputeError::Cycle),
            ) && on_or_after_cycle(g, k),
    ensures
        consistent(s2),
{
    if run {
        let mid = choose|mid: SpreadSheet<N>|
            #[trigger] computes_all(mid, s2) && mid.wf() && mid@ == m && mid.graph() == g;
        lemma_run_settles(mid, s2);
        law_compute_keeps_texts(mid, s2);
        assert forall|k: Index, u: Index|
            s2@.contains_key(k) && #[trigger] deps_of(s2@[k]).contains(u) implies edge(
            s2.graph(),
            u,
            k,
        ) by {
            assert(same_reading(s2@[k], m[k]));
            assert(deps_of(m[k]) == deps_of(s2@[k]));
        }
    } else {
        assert forall|k: Index| s2@.contains_key(k) && #[trigger] reaches(s2.graph(), k, k) implies s2@[k].needs_compute by {
            assert(m.contains_key(k));
        }
        assert forall|k: Index| #[trigger] s2@.contains_key(k) implies (if s2@[k].needs_compute {
            &&& s2@[k].computed_value == Some(Err::<Value<N>, ComputeError>(ComputeError::Cycle))
            &&& on_or_after_cycle(s2.graph(), k)
        } else {
            evaluated_in(s2@, s2@[k], s2@[k].computed_value)
        }) by {
            assert(m.contains_key(k));
        }
    }
}

/// An empty sheet is consistent.
pub proof fn law_empty_consistent<N: Numeric>(s: SpreadSheet<N>)
    requires
        s@ == Map::<Index, Cell<N>>::empty(),
    ensures
        consistent(s),
{
}

/// `add_cell_and_compute` keeps a sheet consistent.
#[verifier::rlimit(80)]
#[verifier::spinoff_prover]
pub proof fn law_add_keeps_consistent<N: Numeric>(
    s: SpreadSheet<N>,
    index: Index,
    raw: Seq<char>,
    s2: SpreadSheet<N>,
)
    requires
        s.wf(),
        s2.wf(),
        consistent(s),
        adds_cell(s, index, raw, s2),
    ensures
        consistent(s2),
{
    let (c, pre) = choose|c: Cell<N>, pre: SpreadSheet<N>| #[trigger] added_with(s, index, raw, c, pre, s2);
    let g = s.graph();
    let g2 = added_node(g, index, deps_of(c));
    let m = s@.insert(index, c);
    let mk = marked(m, g2, index);
    let run = any_marked(m, g2, index);
    s.lemma_cells_ok_view();
    s2.lemma_cells_ok_view();
    lemma_marked_keeps_texts(m, g2, index);
    lemma_settles_keeps_texts(mk, g2, run, s2);
    assert(cell_ok(c)) by {
        assert(m.contains_key(index));
        assert(same_reading(s2@[index], mk[index]));
        assert(cell_ok(s2@[index]));
    }
    assert forall|u: Index, v: Index| #[trigger] edge(g, u, v) implies edge(g2, u, v) by {
        lemma_added_node_exact(g, index, deps_of(c), u, v);
    }
    law_computed_is_evaluated(pre, c, c.computed_value);
    assert forall|k: Index| #[trigger]
        mk.contains_key(k) && !mk[k].needs_compute implies evaluated_in(
        mk,
        mk[k],
        mk[k].computed_value,
    ) by {
        assert(!reaches(g2, index, k));
        if k == index {
            assert forall|u: Index| #[trigger] deps_of(c).contains(u) implies computed_in(s@, u)
                == computed_in(mk, u) by {
                if u == index {
                    lemma_added_node_exact(g, index, deps_of(c), index, index);
                    lemma_reaches_step(g2, index, index, index);
                }
            }
            lemma_evaluated_frame(s@, mk, c, c.computed_value);
        } else {
            assert(s@.contains_key(k));
            assert forall|u: Index| #[trigger] deps_of(s@[k]).contains(u) implies computed_in(s@, u)
                == computed_in(mk, u) by {
                if u == index {
                    assert(edge(g, index, k));
                    lemma_reaches_step(g2, index, index, k);
                }
            }
            lemma_evaluated_frame(s@, mk, s@[k], s@[k].computed_value);
        }
    }
    assert forall|k: Index, u: Index|
        mk.contains_key(k) && #[trigger] deps_of(mk[k]).contains(u) implies edge(g2, u, k) by {
        lemma_added_node_exact(g, index, deps_of(c), u, k);
        if k != index {
            assert(deps_of(s@[k]).contains(u));
        }
    }
    assert forall|k: Index, u: Index|
        mk.contains_key(k) && !mk[k].needs_compute && mk.contains_key(u) && mk[u].needs_compute
            && #[trigger] deps_of(mk[k]).contains(u) implies mk[u].computed_value == Some(
        Err::<Value<N>, ComputeError>(ComputeError::Cycle),
    ) && on_or_after_cycle(g2, u) by {
        assert(edge(g2, u, k));
        assert(!reaches(g2, index, k));
        if u == index || reaches(g2, index, u) {
            lemma_reaches_step(g2, index, u, k);
        }
        assert(s@.contains_key(u));
        lemma_after_cycle_mono(g, g2, u);
    }
    assert forall|u: Index, v: Index| #[trigger] edge(g2, u, v) && v != index implies edge(g, u, v) by {
        lemma_added_node_exact(g, index, deps_of(c), u, v);
    }
    assert forall|k: Index| mk.contains_key(k) && #[trigger] reaches(g2, k, k) implies mk[k].needs_compute by {
        lemma_new_cycle_through(g, g2, index, k);
        if !reaches(g2, index, k) {
            assert(k != index);
            assert(s@.contains_key(k));
        }
    }
    if !run {
        assert forall|k: Index| #[trigger]
            mk.contains_key(k) && mk[k].needs_compute implies mk[k].computed_value == Some(
            Err::<Value<N>, ComputeError>(ComputeError::Cycle),
        ) && on_or_after_cycle(g2, k) by {
            assert(m.contains_key(k));
            assert(!reaches(g2, index, k));
            assert(k != index);
            assert(s@.contains_key(k));
            lemma_after_cycle_mono(g, g2, k);
        }
    }
    lemma_settles_consistent(mk, g2, run, s2);
}


/// `mutate_cell` keeps a sheet consistent.
#[verifier::rlimit(80)]
#[verifier::spinoff_prover]
pub proof fn law_mutate_keeps_consistent<N: Numeric>(
    s: SpreadSheet<N>,
    index: Index,
    raw: Seq<char>,
    s2: SpreadSheet<N>,
)
    requires
        s.wf(),
        s2.wf(),
        consistent(s),
        mutates_cell(s, index, raw, s2),
    ensures
        consistent(s2),
{
    let c = choose|c: Cell<N>| #[trigger] mutated_with(s, index, raw, c, s2);
    let g = s.graph();
    let g1 = removed_edges_to(g, index);
    let g2 = added_node(g1, index, deps_of(c));
    let m = s@.insert(index, c);
    let mk = marked(m, g2, index);
    let run = any_marked(m, g2, index);
    s.lemma_cells_ok_view();
    s2.lemma_cells_ok_view();
    lemma_marked_keeps_texts(m, g2, index);
    lemma_settles_keeps_texts(mk, g2, run, s2);
    assert(cell_ok(c)) by {
        assert(m.contains_key(index));
        assert(same_reading(s2@[index], mk[index]));
        assert(cell_ok(s2@[index]));
    }
    assert forall|u: Index, v: Index| #[trigger] edge(g1, u, v) implies edge(g2, u, v) by {
        lemma_added_node_exact(g1, index, deps_of(c), u, v);
    }
    assert forall|u: Index, v: Index| #[trigger] edge(g, u, v) && v != index implies edge(g2, u, v) by {
        lemma_removed_edges_to(g, index, u, v);
        lemma_added_node_exact(g1, index, deps_of(c), u, v);
    }
    law_computed_is_evaluated(s, c, c.computed_value);
    assert forall|k: Index| #[trigger]
        mk.contains_key(k) && !mk[k].needs_compute implies evaluated_in(
        mk,
        mk[k],
        mk[k].computed_value,
    ) by {
        assert(!reaches(g2, index, k));
        if k == index {
            assert forall|u: Index| #[trigger] deps_of(c).contains(u) implies computed_in(s@, u)
                == computed_in(mk, u) by {
                if u == index {
                    lemma_added_node_exact(g1, index, deps_of(c), index, index);
                    lemma_reaches_step(g2, index, index, index);
                }
            }
            lemma_evaluated_frame(s@, mk, c, c.computed_value);
        } else {
            assert(s@.contains_key(k));
            assert forall|u: Index| #[trigger] deps_of(s@[k]).contains(u) implies computed_in(s@, u)
                == computed_in(mk, u) by {
                if u == index {
                    assert(edge(g, index, k));
                    lemma_reaches_step(g2, index, index, k);
                }
            }
            lemma_evaluated_frame(s@, mk, s@[k], s@[k].computed_value);
        }
    }
    assert forall|k: Index, u: Index|
        mk.contains_key(k) && #[trigger] deps_of(mk[k]).contains(u) implies edge(g2, u, k) by {
        lemma_added_node_exact(g1, index, deps_of(c), u, k);
        if k != index {
            assert(deps_of(s@[k]).contains(u));
            assert(edge(g, u, k));
        }
    }
    assert forall|k: Index, u: Index|
        mk.contains_key(k) && !mk[k].needs_compute && mk.contains_key(u) && mk[u].needs_compute
            && #[trigger] deps_of(mk[k]).contains(u) implies mk[u].computed_value == Some(
        Err::<Value<N>, ComputeError>(ComputeError::Cycle),
    ) && on_or_after_cycle(g2, u) by {
        assert(edge(g2, u, k));
        assert(!reaches(g2, index, k));
        if u == index || reaches(g2, index, u) {
            lemma_reaches_step(g2, index, u, k);
        }
        assert(s@.contains_key(u));
        lemma_after_cycle_removed(g, index, u);
        if reaches(g1, index, u) {
            lemma_reaches_mono(g1, g2, index, u);
        } else {
            lemma_after_cycle_mono(g1, g2, u);
        }
    }
    assert forall|u: Index, v: Index| #[trigger] edge(g2, u, v) && v != index implies edge(g, u, v) by {
        lemma_added_node_exact(g1, index, deps_of(c), u, v);
        lemma_removed_edges_to(g, index, u, v);
    }
    assert forall|k: Index| mk.contains_key(k) && #[trigger] reaches(g2, k, k) implies mk[k].needs_compute by {
        lemma_new_cycle_through(g, g2, index, k);
        if !reaches(g2, index, k) {
            assert(k != index);
            assert(s@.contains_key(k));
        }
    }
    if !run {
        assert forall|k: Index| #[trigger]
            mk.contains_key(k) && mk[k].needs_compute implies mk[k].computed_value == Some(
            Err::<Value<N>, ComputeError>(ComputeError::Cycle),
        ) && on_or_after_cycle(g2, k) by {
            assert(m.contains_key(k));
            assert(!reaches(g2, index, k));
            assert(k != index);
            assert(s@.contains_key(k));
            lemma_after_cycle_removed(g, index, k);
            if reaches(g1, index, k) {
                lemma_reaches_mono(g1, g2, index, k);
            } else {
                lemma_after_cycle_mono(g1, g2, k);
            }
        }
    }
    lemma_settles_consistent(mk, g2, run, s2);
}

/// `remove_cell` keeps a sheet consistent.
#[verifier::rlimit(80)]
#[verifier::spinoff_prover]
pub proof fn law_remove_keeps_consistent<N: Numeric>(s: SpreadSheet<N>, index: Index, s2: SpreadSheet<N>)
    requires
        s.wf(),
        consistent(s),
        removes_cell(s, index, s2),
    ensures
        consistent(s2),
{
    let g = s.graph();
    let g2 = removed_edges_to(g, index);
    let mk = marked(s@, g, index).remove(index);
    let run = any_marked(s@, g, index);
    s.lemma_cells_ok_view();
    lemma_marked_keeps_texts(s@, g, index);
    assert forall|u: Index, v: Index| #[trigger] edge(g2, u, v) implies edge(g, u, v) by {
        lemma_removed_edges_to(g, index, u, v);
    }
    assert forall|k: Index| #[trigger]
        mk.contains_key(k) && !mk[k].needs_compute implies evaluated_in(
        mk,
        mk[k],
        mk[k].computed_value,
    ) by {
        assert(!reaches(g, index, k));
        assert(s@.contains_key(k));
        assert forall|u: Index| #[trigger] deps_of(s@[k]).contains(u) implies computed_in(s@, u)
            == computed_in(mk, u) by {
            if u == index {
                assert(edge(g, index, k));
                lemma_reaches_step(g, index, index, k);
            }
        }
        lemma_evaluated_frame(s@, mk, s@[k], s@[k].computed_value);
    }
    assert forall|k: Index, u: Index|
        mk.contains_key(k) && #[trigger] deps_of(mk[k]).contains(u) implies edge(g2, u, k) by {
        assert(deps_of(s@[k]).contains(u));
        assert(edge(g, u, k));
        lemma_removed_edges_to(g, index, u, k);
    }
    assert forall|k: Index, u: Index|
        mk.contains_key(k) && !mk[k].needs_compute && mk.contains_key(u) && mk[u].needs_compute
            && #[trigger] deps_of(mk[k]).contains(u) implies mk[u].computed_value == Some(
        Err::<Value<N>, ComputeError>(ComputeError::Cycle),
    ) && on_or_after_cycle(g2, u) by {
        assert(deps_of(s@[k]).contains(u));
        assert(edge(g, u, k));
        assert(!reaches(g, index, k));
        if reaches(g, index, u) {
            lemma_reaches_step(g, index, u, k);
        }
        assert(s@.contains_key(u));
        lemma_after_cycle_removed(g, index, u);
        if reaches(g2, index, u) {
            lemma_reaches_mono(g2, g, index, u);
        }
    }
    assert forall|k: Index| mk.contains_key(k) && #[trigger] reaches(g2, k, k) implies mk[k].needs_compute by {
        lemma_reaches_mono(g2, g, k, k);
        assert(s@.contains_key(k));
    }
    if !run {
        assert forall|k: Index| #[trigger]
            mk.contains_key(k) && mk[k].needs_compute implies mk[k].computed_value == Some(
            Err::<Value<N>, ComputeError>(ComputeError::Cycle),
        ) && on_or_after_cycle(g2, k) by {
            assert(s@.contains_key(k));
            assert(!reaches(g, index, k));
            lemma_after_cycle_removed(g, index, k);
            if reaches(g2, index, k) {
                lemma_reaches_mono(g2, g, index, k);
            }
        }
    }
    lemma_settles_consistent(mk, g2, run, s2);
}


/// One of the operations that change a sheet.
pub ghost enum SheetOp {
    /// `add_cell_and_compute` with a position and a text.
    Add(Index, Seq<char>),
    /// `mutate_cell` with a position and a text.
    Mutate(Index, Seq<char>),
    /// `remove_cell` with a position.
    Remove(Index),
}

/// `s2` is what the function that performs `op` makes of `s`, on an input
/// that function accepts.
pub open spec fn performs<N: Numeric>(s: SpreadSheet<N>, op: SheetOp, s2: SpreadSheet<N>) -> bool {
    &&& s2.wf()
    &&& match op {
        SheetOp::Add(i, raw) => raw.len() > 0 && raw_readable(raw) && adds_cell(s, i, raw, s2),
        SheetOp::Mutate(i, raw) => s@.contains_key(i) && raw.len() > 0 && raw_readable(raw)
            && mutates_cell(s, i, raw, s2),
        SheetOp::Remove(i) => removes_cell(s, i, s2),
    }
}

/// `sheets` are the sheets met while performing `ops` one after the other,
/// starting from the empty sheet `sheets[0]`.
pub open spec fn history<N: Numeric>(ops: Seq<SheetOp>, sheets: Seq<SpreadSheet<N>>) -> bool {
    &&& sheets.len() == ops.len() + 1
    &&& sheets[0].wf()
    &&& sheets[0]@ == Map::<Index, Cell<N>>::empty()
    &&& forall|j: int| 0 <= j < ops.len() ==> #[trigger] performs(sheets[j], ops[j], sheets[j + 1])
}

/// Each sheet of a history is consistent.
proof fn lemma_history_consistent<N: Numeric>(ops: Seq<SheetOp>, sheets: Seq<SpreadSheet<N>>, j: int)
    requires
        history(ops, sheets),
        0 <= j <= ops.len(),
    ensures
        consistent(sheets[j]),
        sheets[j].wf(),
    decreases j,
{
    if j == 0 {
        law_empty_consistent(sheets[0]);
    } else {
        lemma_history_consistent(ops, sheets, j - 1);
        assert(performs(sheets[j - 1], ops[j - 1], sheets[j - 1 + 1]));
        match ops[j - 1] {
            SheetOp::Add(i, raw) => law_add_keeps_consistent(sheets[j - 1], i, raw, sheets[j]),
            SheetOp::Mutate(i, raw) => law_mutate_keeps_consistent(sheets[j - 1], i, raw, sheets[j]),
            SheetOp::Remove(i) => law_remove_keeps_consistent(sheets[j - 1], i, sheets[j]),
        }
    }
}

/// After any sequence of `add_cell_and_compute`, `mutate_cell` and
/// `remove_cell` calls starting from the empty sheet, every cell that needs
/// no computing shows what it comes to with the values the sheet shows (its
/// value, its parse error, or its expression evaluated against them); every
/// cell that still needs computing shows the cycle error and lies on a
/// cycle of references or after one; and every cell on a cycle of
/// references is one of these.
pub proof fn law_history_consistent<N: Numeric>(ops: Seq<SheetOp>, sheets: Seq<SpreadSheet<N>>)
    requires
        history(ops, sheets),
    ensures
        consistent(sheets.last()),
{
    lemma_history_consistent(ops, sheets, ops.len() as int);
}

/// In a sequence without repetitions, `pos_of` finds the one position.
proof fn lemma_pos_of_unique(s: Seq<Index>, j: int)
    requires
        s.no_duplicates(),
        0 <= j < s.len(),
    ensures
        s.contains(s[j]),
        pos_of(s, s[j]) == j,
{
    crate::dependancy_graph::lemma_pos_of(s, j);
}

impl<N: Numeric> VarContext<N> for SpreadSheet<N> {
    /// The value computed for the cell at `index`.
    fn get_variable(&self, index: Index) -> (r: Option<Result<Value<N>, ComputeError>>)
        ensures
            self.cells_wf() ==> r == self.computed_at(index),
    {
        match self.position(index) {
            Some(j) if j < self.cells.len() => {
                proof {
                    if self.cells_wf() {
                        self.lemma_position(j as int);
                    }
                }
                match &self.cells[j].computed_value {
                    Some(Ok(v)) => Some(Ok(v.duplicate())),
                    Some(Err(e)) => Some(Err(e.duplicate())),
                    None => None,
                }
            },
            _ => None,
        }
    }
}

} // verus!
