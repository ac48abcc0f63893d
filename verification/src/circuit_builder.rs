//! Building a circuit cell by cell.
//!
//! A [`CircuitBuilder`] holds an append-only list of cells. A witness cell is
//! an input; a gate cell reads two earlier cells of one common layer and sits
//! one layer above them. `build_circuit` emits the layered circuit whose
//! outputs are the cells of the highest layer, without the cells that no
//! output depends on.
use std::collections::{HashMap, HashSet};
use vstd::prelude::*;
use crate::cell_list::{
    append_cells, append_result, cell_ok, has_gate, layer_count, lemma_has_gate_push,
    lemma_layer_count_bounds, lemma_ordered_cells_bounds, lemma_push_keeps_valid, valid_cells,
    with_witness, witness_count,
};
use crate::circuit::{layer_views, Circuit, CircuitLayer, Gate, GateType};
use crate::layering::{
    built_circuit, gate_at, ints, kept, layer_gates, layer_members, lemma_built_circuit_well_formed,
    lemma_kept_layer, lemma_kept_operands, lemma_members_below, lemma_members_below_unique,
    lemma_rank_position, members_below, rank,
};

verus! {

/// What a cell computes. The operands of a gate are creation indices of
/// earlier cells.
#[derive(Clone, Copy, Debug, PartialEq, Eq, Hash, Structural)]
pub enum CellGateType {
    Add(usize, usize),
    Mul(usize, usize),
    Witness,
}

impl CellGateType {
    /// The two operands of a gate, left first; `None` for a witness.
    pub open spec fn spec_operands(self) -> Option<(int, int)> {
        match self {
            CellGateType::Add(l, r) => Some((l as int, r as int)),
            CellGateType::Mul(l, r) => Some((l as int, r as int)),
            CellGateType::Witness => None,
        }
    }

    /// Whether this is a gate one of whose operands is the cell `i`.
    pub open spec fn reads(self, i: int) -> bool {
        match self.spec_operands() {
            Some((l, r)) => l == i || r == i,
            None => false,
        }
    }
}

/// Why a gate was not appended.
#[derive(Clone, Copy, Debug, PartialEq, Eq, Structural)]
pub enum BuildError {
    /// A gate of the same kind with the same operands, in the same order, exists already.
    DuplicateGate,
    /// The two operands do not lie in the same layer.
    IllegalGate,
}

/// One node of the graph under construction.
#[derive(Clone, Copy, Debug)]
pub struct Cell {
    /// The creation index: the cell's position in the list of all cells.
    pub index: usize,
    /// The depth of the cell, counted from the inputs.
    pub layer_id: usize,
    /// The operation and its operands.
    pub gate_type: CellGateType,
}

/// Two circuits built from one builder state are the same, layer by layer
/// and gate by gate.
pub proof fn lemma_build_repeatable(builder: CircuitBuilder, first: Circuit, second: Circuit)
    requires
        first@ == built_circuit(builder@),
        second@ == built_circuit(builder@),
    ensures
        first@.layers == second@.layers,
        first@.num_inputs == second@.num_inputs,
{
}

/// The key under which a pair of operands is remembered.
spec fn pair_key(l: usize, r: usize) -> u128 {
    (l * 0x1_0000_0000_0000_0000 + r) as u128
}

/// Different pairs of operands have different keys.
proof fn lemma_pair_key_injective(l: usize, r: usize, l2: usize, r2: usize)
    requires
        pair_key(l, r) == pair_key(l2, r2),
    ensures
        l == l2 && r == r2,
{
}

/// Computes the key of a pair of operands.
fn pair_key_of(l: usize, r: usize) -> (key: u128)
    ensures
        key == pair_key(l, r),
{
    (l as u128) * 0x1_0000_0000_0000_0000u128 + (r as u128)
}

/// Sorts `v` with `sort` of the standard library's slices. The contract
/// claims what its documentation says: the elements are the same, each as
/// often as before, and they stand in ascending order.
#[verifier::external_body]
fn sort_ascending(v: &mut Vec<usize>)
    ensures
        final(v)@.to_multiset() == old(v)@.to_multiset(),
        forall|i: int, j: int| 0 <= i <= j < final(v)@.len() ==> final(v)@[i] <= final(v)@[j],
{
    v.sort();
}

/// Marks the cell `x` as seen, and appends it to `next` where it was not seen before.
fn visit(seen: &mut HashSet<usize>, next: &mut Vec<usize>, x: usize)
    ensures
        final(seen)@ == old(seen)@.insert(x),
        final(next)@ == if old(seen)@.contains(x) {
            old(next)@
        } else {
            old(next)@.push(x)
        },
{
    broadcast use vstd::std_specs::hash::group_hash_axioms;

    if !seen.contains(&x) {
        seen.insert(x);
        next.push(x);
    } else {
        assert(seen@ == old(seen)@.insert(x));
    }
}

/// Records for each cell of `members` its position in `members`.
fn number(members: &Vec<usize>, position: &mut HashMap<usize, usize>)
    requires
        members@.no_duplicates(),
    ensures
        forall|k: int|
            0 <= k < members@.len() ==> final(position)@.contains_key(#[trigger] members@[k])
                && final(position)@[members@[k]] == k,
{
    broadcast use vstd::std_specs::hash::group_hash_axioms;

    let mut i: usize = 0;
    while i < members.len()
        invariant
            i <= members@.len(),
            members@.no_duplicates(),
            forall|k: int|
                0 <= k < i ==> position@.contains_key(#[trigger] members@[k])
                    && position@[members@[k]] == k,
        decreases members@.len() - i,
    {
        position.insert(members[i], i);
        i += 1;
    }
}

/// An append-only list of cells from which a layered circuit is built.
pub struct CircuitBuilder {
    cells: Vec<Cell>,
    add_gates: HashSet<u128>,
    mul_gates: HashSet<u128>,
    n_layer: usize,
    n_input: usize,
}

impl View for CircuitBuilder {
    type V = Seq<Cell>;

    closed spec fn view(&self) -> Seq<Cell> {
        self.cells@
    }
}

impl CircuitBuilder {
    /// The bookkeeping agrees with the cell list: the layer count, the
    /// witness counter and the record of the gates seen so far.
    pub closed spec fn coherent(&self) -> bool {
        &&& self.n_layer == layer_count(self.cells@)
        &&& self.n_input == witness_count(self.cells@)
        &&& forall|l: usize, r: usize| #[trigger]
            self.add_gates@.contains(pair_key(l, r)) <==> has_gate(
                self.cells@,
                CellGateType::Add(l, r),
            )
        &&& forall|l: usize, r: usize| #[trigger]
            self.mul_gates@.contains(pair_key(l, r)) <==> has_gate(
                self.cells@,
                CellGateType::Mul(l, r),
            )
    }

    /// The invariant of a builder.
    pub open spec fn wf(&self) -> bool {
        valid_cells(self@) && self.coherent()
    }

    /// The cells created so far, by creation index.
    pub fn cells(&self) -> (cells: &Vec<Cell>)
        ensures
            cells@ == self@,
    {
        &self.cells
    }

    /// The number of layers that the cells span.
    pub fn n_layer(&self) -> (n: usize)
        requires
            self.wf(),
        ensures
            n == layer_count(self@),
    {
        self.n_layer
    }

    /// The number of witnesses created so far.
    pub fn n_input(&self) -> (n: usize)
        requires
            self.wf(),
        ensures
            n == witness_count(self@),
    {
        self.n_input
    }

    /// A builder without cells.
    pub fn new() -> (builder: CircuitBuilder)
        ensures
            builder.wf(),
            builder@ == Seq::<Cell>::empty(),
    {
        let builder = CircuitBuilder {
            cells: Vec::new(),
            add_gates: HashSet::new(),
            mul_gates: HashSet::new(),
            n_layer: 0,
            n_input: 0,
        };
        assert(builder.coherent());
        builder
    }

    /// Appends a witness cell in layer 0 and returns its index.
    pub fn apply_witness(&mut self) -> (idx: usize)
        requires
            old(self).wf(),
        ensures
            final(self).wf(),
            idx == old(self)@.len(),
            final(self)@ == with_witness(old(self)@),
    {
        let idx = self.cells.len();
        let cell = Cell { index: idx, layer_id: 0, gate_type: CellGateType::Witness };
        self.cells.push(cell);
        proof {
            lemma_ordered_cells_bounds(old(self)@);
            lemma_push_keeps_valid(old(self)@, cell);
        }
        if self.n_layer == 0 {
            self.n_layer = 1
        };
        assert(self.n_input < self.cells.len());
        self.n_input += 1;
        proof {
            lemma_layer_count_bounds(old(self)@);
            assert(self.cells@.drop_last() == old(self)@);
            assert forall|g: CellGateType| g != CellGateType::Witness implies (has_gate(
                self.cells@,
                g,
            ) <==> has_gate(old(self)@, g)) by {
                lemma_has_gate_push(old(self)@, cell, g);
            }
        }
        idx
    }

    /// Appends `Add(left, right)` one layer above its operands and returns
    /// its index. It is refused, and the builder left as it was, where the
    /// same gate exists already or the operands lie in different layers.
    pub fn append_add_gate(&mut self, left: usize, right: usize) -> (res: Result<usize, BuildError>)
        requires
            old(self).wf(),
            left < old(self)@.len(),
            right < old(self)@.len(),
        ensures
            final(self).wf(),
            res == append_result(old(self)@, CellGateType::Add(left, right)),
            final(self)@ == append_cells(old(self)@, CellGateType::Add(left, right)),
    {
        self.append_gate(CellGateType::Add(left, right), left, right)
    }

    /// Appends `Mul(left, right)` one layer above its operands and returns
    /// its index. It is refused, and the builder left as it was, where the
    /// same gate exists already or the operands lie in different layers.
    pub fn append_mul_gate(&mut self, left: usize, right: usize) -> (res: Result<usize, BuildError>)
        requires
            old(self).wf(),
            left < old(self)@.len(),
            right < old(self)@.len(),
        ensures
            final(self).wf(),
            res == append_result(old(self)@, CellGateType::Mul(left, right)),
            final(self)@ == append_cells(old(self)@, CellGateType::Mul(left, right)),
    {
        self.append_gate(CellGateType::Mul(left, right), left, right)
    }

    /// Emits the layered circuit of the cells: its outputs are all cells of
    /// the highest layer, each layer holds in creation order the cells that
    /// an output depends on, and each gate names its operands by their
    /// positions in the layer below. Cells on which no output depends are
    /// left out. The builder is not changed and can be extended afterwards.
    pub fn build_circuit(&self) -> (circuit: Circuit)
        requires
            self.wf(),
        ensures
            circuit@ == built_circuit(self@),
            circuit@.well_formed(),
    {
        let mut layers: Vec<CircuitLayer> = Vec::new();
        proof {
            lemma_built_circuit_well_formed(self@);
            lemma_layer_count_bounds(self@);
        }
        if self.n_layer == 0 {
            assert(layer_views(layers@) =~= built_circuit(self@).layers);
            return Circuit::new(layers, 0);
        }
        let top = self.n_layer - 1;
        let mut queue = self.top_cells();
        let mut seen: HashSet<usize> = HashSet::new();
        let mut position: HashMap<usize, usize> = HashMap::new();
        let mut d: usize = 0;
        while d < top
            invariant
                self.wf(),
                top + 1 == layer_count(self@),
                d <= top,
                ints(queue@) == layer_members(self@, d as nat),
                layers@.len() == d,
                forall|k: int| 0 <= k < d ==> (#[trigger] layers@[k])@ == layer_gates(self@, k as nat),
                forall|x: usize| #[trigger]
                    seen@.contains(x) ==> x < self@.len() && self@[x as int].layer_id + d + 1
                        >= layer_count(self@),
            decreases top - d,
        {
            let mut next = self.expand(&queue, &mut seen, Ghost(d as nat));
            let ghost unsorted = next@;
            sort_ascending(&mut next);
            proof {
                assert(self@.len() == self.cells.len());
                self.lemma_sorted_members(unsorted, next@, (d + 1) as nat);
            }
            number(&next, &mut position);
            let gates = self.renumber(&queue, &position, &next, Ghost(d as nat));
            layers.push(CircuitLayer::new(gates));
            queue = next;
            d += 1;
        }
        let num_inputs = queue.len();
        assert(layer_views(layers@) =~= built_circuit(self@).layers);
        Circuit::new(layers, num_inputs)
    }

    /// The cells of the highest layer, in creation order.
    fn top_cells(&self) -> (queue: Vec<usize>)
        requires
            self.wf(),
            layer_count(self@) > 0,
        ensures
            ints(queue@) == layer_members(self@, 0),
    {
        let top = self.n_layer - 1;
        let mut queue: Vec<usize> = Vec::new();
        let mut i: usize = 0;
        while i < self.cells.len()
            invariant
                self.wf(),
                top + 1 == layer_count(self@),
                i <= self@.len(),
                ints(queue@) == members_below(kept(self@, 0), i as int),
            decreases self@.len() - i,
        {
            if self.cells[i].layer_id == top {
                let ghost before = queue@;
                queue.push(i);
                assert(ints(queue@) == ints(before).push(i as int));
            }
            i += 1;
        }
        queue
    }

    /// The operands of the gates in `queue`, each once: the cells kept one
    /// step further from the outputs, in the order in which they are met.
    fn expand(&self, queue: &Vec<usize>, seen: &mut HashSet<usize>, Ghost(d): Ghost<nat>) -> (next:
        Vec<usize>)
        requires
            self.wf(),
            d + 1 < layer_count(self@),
            ints(queue@) == layer_members(self@, d),
            forall|x: usize| #[trigger]
                old(seen)@.contains(x) ==> x < self@.len() && self@[x as int].layer_id + d + 1
                    >= layer_count(self@),
        ensures
            next@.no_duplicates(),
            forall|x: usize| #[trigger] next@.contains(x) <==> kept(self@, d + 1).contains(x as int),
            forall|x: usize| #[trigger]
                final(seen)@.contains(x) ==> x < self@.len() && self@[x as int].layer_id + d + 2
                    >= layer_count(self@),
    {
        let mut next: Vec<usize> = Vec::new();
        let n = queue.len();
        let mut i: usize = 0;
        proof {
            lemma_members_below(kept(self@, d), self@.len() as int);
            lemma_kept_layer(self@, d);
            lemma_kept_layer(self@, d + 1);
        }
        while i < n
            invariant
                self.wf(),
                d + 1 < layer_count(self@),
                n == queue@.len(),
                i <= n,
                ints(queue@) == layer_members(self@, d),
                next@.no_duplicates(),
                forall|k: int|
                    0 <= k < next@.len() ==> exists|j: int|
                        0 <= j < i && self@[#[trigger] queue@[j] as int].gate_type.reads(
                            #[trigger] next@[k] as int,
                        ),
                forall|j: int, x: usize|
                    0 <= j < i && #[trigger] self@[queue@[j] as int].gate_type.reads(x as int)
                        ==> next@.contains(x),
                forall|x: usize| #[trigger]
                    seen@.contains(x) <==> old(seen)@.contains(x) || next@.contains(x),
                forall|x: usize| #[trigger]
                    old(seen)@.contains(x) ==> x < self@.len() && self@[x as int].layer_id + d + 1
                        >= layer_count(self@),
                forall|c: int| #[trigger]
                    kept(self@, d).contains(c) ==> 0 <= c < self@.len() && self@[c].layer_id + d + 1
                        == layer_count(self@),
                forall|c: int| #[trigger]
                    kept(self@, d + 1).contains(c) ==> 0 <= c < self@.len() && self@[c].layer_id + d
                        + 2 == layer_count(self@),
                forall|k: int|
                    0 <= k < n ==> 0 <= #[trigger] layer_members(self@, d)[k] < self@.len() && kept(
                        self@,
                        d,
                    ).contains(layer_members(self@, d)[k]),
            decreases n - i,
        {
            let ghost c = queue@[i as int] as int;
            assert(c == ints(queue@)[i as int]);
            assert(kept(self@, d).contains(layer_members(self@, d)[i as int]));
            proof {
                lemma_kept_operands(self@, d, c);
            }
            let (l, r) = match self.cells[queue[i]].gate_type {
                CellGateType::Add(x, y) => (x, y),
                CellGateType::Mul(x, y) => (x, y),
                CellGateType::Witness => vstd::pervasive::unreached(),
            };
            let ghost before = next@;
            let ghost seen_before = seen@;
            visit(seen, &mut next, l);
            let ghost middle = next@;
            let ghost seen_middle = seen@;
            visit(seen, &mut next, r);
            proof {
                assert(kept(self@, d + 1).contains(l as int));
                assert(kept(self@, d + 1).contains(r as int));
                assert(!old(seen)@.contains(l));
                assert(!old(seen)@.contains(r));
                assert(seen_before.contains(l) ==> before.contains(l));
                assert(middle.contains(l)) by {
                    if !seen_before.contains(l) {
                        assert(middle[before.len() as int] == l);
                    } else {
                        assert(before.contains(l));
                    }
                }
                assert(seen_middle.contains(r) ==> middle.contains(r)) by {
                    if seen_middle.contains(r) && r != l {
                        assert(seen_before.contains(r));
                        let k = choose|k: int| 0 <= k < before.len() && before[k] == r;
                        assert(middle[k] == r);
                    }
                }
                assert(next@.contains(r)) by {
                    if middle.contains(r) {
                        let k = choose|k: int| 0 <= k < middle.len() && middle[k] == r;
                        assert(next@[k] == r);
                    } else {
                        assert(next@[middle.len() as int] == r);
                    }
                }
                assert forall|x: usize| before.contains(x) implies middle.contains(x) by {
                    let k = choose|k: int| 0 <= k < before.len() && before[k] == x;
                    assert(middle[k] == x);
                }
                assert forall|x: usize| middle.contains(x) implies next@.contains(x) by {
                    let k = choose|k: int| 0 <= k < middle.len() && middle[k] == x;
                    assert(next@[k] == x);
                }
                assert forall|x: usize| #[trigger] seen@.contains(x) <==> old(seen)@.contains(x)
                    || next@.contains(x) by {
                    if next@.contains(x) && !middle.contains(x) {
                        assert(x == r);
                    }
                    if middle.contains(x) && !before.contains(x) {
                        assert(x == l);
                    }
                }
                assert forall|k: int| 0 <= k < next@.len() implies exists|j: int|
                    0 <= j < i + 1 && self@[#[trigger] queue@[j] as int].gate_type.reads(
                        #[trigger] next@[k] as int,
                    ) by {
                    if k < before.len() {
                        let j = choose|j: int|
                            0 <= j < i && self@[#[trigger] queue@[j] as int].gate_type.reads(
                                before[k] as int,
                            );
                        assert(self@[queue@[j] as int].gate_type.reads(next@[k] as int));
                    } else {
                        assert(self@[queue@[i as int] as int].gate_type.reads(next@[k] as int));
                    }
                }
                assert forall|j: int, x: usize|
                    0 <= j < i + 1 && #[trigger] self@[queue@[j] as int].gate_type.reads(
                        x as int,
                    ) implies next@.contains(x) by {
                    if j < i {
                        assert(before.contains(x));
                    }
                }
            }
            i += 1;
        }
        proof {
            assert forall|x: usize| #[trigger]
                next@.contains(x) <==> kept(self@, d + 1).contains(x as int) by {
                if next@.contains(x) {
                    let k = choose|k: int| 0 <= k < next@.len() && next@[k] == x;
                    let j = choose|j: int|
                        0 <= j < n && self@[#[trigger] queue@[j] as int].gate_type.reads(
                            next@[k] as int,
                        );
                    let c = queue@[j] as int;
                    assert(c == ints(queue@)[j]);
                    assert(kept(self@, d).contains(layer_members(self@, d)[j]));
                    assert(self@[c].gate_type.reads(x as int));
                }
                if kept(self@, d + 1).contains(x as int) {
                    let c = choose|c: int|
                        0 <= c < self@.len() && kept(self@, d).contains(c) && (
                        #[trigger] self@[c]).gate_type.reads(x as int);
                    assert(layer_members(self@, d).contains(c));
                    let j = choose|j: int|
                        0 <= j < layer_members(self@, d).len() && layer_members(self@, d)[j] == c;
                    assert(ints(queue@)[j] == c);
                    assert(self@[queue@[j] as int].gate_type.reads(x as int));
                }
            }
        }
        next
    }

    /// A sorted rearrangement of the cells kept at distance `d` is the list
    /// of those cells in creation order.
    proof fn lemma_sorted_members(&self, unsorted: Seq<usize>, sorted: Seq<usize>, d: nat)
        requires
            self.wf(),
            self@.len() <= usize::MAX,
            unsorted.no_duplicates(),
            forall|x: usize| #[trigger] unsorted.contains(x) <==> kept(self@, d).contains(x as int),
            sorted.to_multiset() == unsorted.to_multiset(),
            forall|i: int, j: int| 0 <= i <= j < sorted.len() ==> sorted[i] <= sorted[j],
        ensures
            ints(sorted) == layer_members(self@, d),
            sorted.no_duplicates(),
    {
        broadcast use vstd::seq_lib::group_to_multiset_ensures;

        unsorted.lemma_multiset_has_no_duplicates();
        sorted.lemma_multiset_has_no_duplicates_conv();
        lemma_kept_layer(self@, d);
        let q = ints(sorted);
        let s = kept(self@, d);
        let n = self@.len() as int;
        assert forall|k: int| 0 <= k < q.len() implies 0 <= (#[trigger] q[k]) < n && s.contains(
            q[k],
        ) by {
            assert(sorted.contains(sorted[k]));
            assert(sorted.to_multiset().count(sorted[k]) > 0);
            assert(unsorted.contains(sorted[k]));
        }
        assert forall|x: int| 0 <= x < n && s.contains(x) implies q.contains(x) by {
            assert(unsorted.contains(x as usize));
            assert(unsorted.to_multiset().count(x as usize) > 0);
            assert(sorted.contains(x as usize));
            let k = choose|k: int| 0 <= k < sorted.len() && sorted[k] == x as usize;
            assert(q[k] == x);
        }
        lemma_members_below_unique(s, n, q);
    }

    /// The gates of the cells in `queue`, their operands renumbered by `position`.
    fn renumber(
        &self,
        queue: &Vec<usize>,
        position: &HashMap<usize, usize>,
        below: &Vec<usize>,
        Ghost(d): Ghost<nat>,
    ) -> (gates: Vec<Gate>)
        requires
            self.wf(),
            d + 1 < layer_count(self@),
            ints(queue@) == layer_members(self@, d),
            ints(below@) == layer_members(self@, d + 1),
            forall|k: int|
                0 <= k < below@.len() ==> position@.contains_key(#[trigger] below@[k])
                    && position@[below@[k]] == k,
        ensures
            gates@ == layer_gates(self@, d),
    {
        broadcast use vstd::std_specs::hash::group_hash_axioms;

        let mut gates: Vec<Gate> = Vec::new();
        let n = queue.len();
        let mut i: usize = 0;
        proof {
            lemma_members_below(kept(self@, d), self@.len() as int);
        }
        while i < n
            invariant
                self.wf(),
                d + 1 < layer_count(self@),
                n == queue@.len(),
                i <= n,
                ints(queue@) == layer_members(self@, d),
                ints(below@) == layer_members(self@, d + 1),
                forall|k: int|
                    0 <= k < below@.len() ==> position@.contains_key(#[trigger] below@[k])
                        && position@[below@[k]] == k,
                forall|k: int|
                    0 <= k < n ==> 0 <= #[trigger] layer_members(self@, d)[k] < self@.len() && kept(
                        self@,
                        d,
                    ).contains(layer_members(self@, d)[k]),
                gates@.len() == i,
                forall|k: int|
                    0 <= k < i ==> #[trigger] gates@[k] == gate_at(
                        self@,
                        d,
                        layer_members(self@, d)[k],
                    ),
            decreases n - i,
        {
            let ghost c = queue@[i as int] as int;
            assert(c == ints(queue@)[i as int]);
            assert(kept(self@, d).contains(layer_members(self@, d)[i as int]));
            proof {
                lemma_kept_operands(self@, d, c);
                let (l, r) = self@[c].gate_type.spec_operands().unwrap();
                lemma_rank_position(kept(self@, d + 1), l, self@.len() as int);
                lemma_rank_position(kept(self@, d + 1), r, self@.len() as int);
                let kl = rank(kept(self@, d + 1), l) as int;
                let kr = rank(kept(self@, d + 1), r) as int;
                assert(ints(below@)[kl] == l);
                assert(ints(below@)[kr] == r);
                assert(below@[kl] == l as usize);
                assert(below@[kr] == r as usize);
            }
            let gate = match self.cells[queue[i]].gate_type {
                CellGateType::Add(l, r) => Gate::new(
                    GateType::Add,
                    [*position.get(&l).unwrap(), *position.get(&r).unwrap()],
                ),
                CellGateType::Mul(l, r) => Gate::new(
                    GateType::Mul,
                    [*position.get(&l).unwrap(), *position.get(&r).unwrap()],
                ),
                CellGateType::Witness => vstd::pervasive::unreached(),
            };
            assert(gate == gate_at(self@, d, c));
            gates.push(gate);
            i += 1;
        }
        assert(gates@ =~= layer_gates(self@, d));
        gates
    }

    /// Appends `gate`, whose operands are `left` and `right`, or refuses it.
    fn append_gate(&mut self, gate: CellGateType, left: usize, right: usize) -> (res: Result<
        usize,
        BuildError,
    >)
        requires
            old(self).wf(),
            left < old(self)@.len(),
            right < old(self)@.len(),
            gate == CellGateType::Add(left, right) || gate == CellGateType::Mul(left, right),
        ensures
            final(self).wf(),
            res == append_result(old(self)@, gate),
            final(self)@ == append_cells(old(self)@, gate),
    {
        broadcast use vstd::std_specs::hash::group_hash_axioms;

        let key = pair_key_of(left, right);
        let seen = match gate {
            CellGateType::Mul(_, _) => self.mul_gates.contains(&key),
            _ => self.add_gates.contains(&key),
        };
        if seen {
            return Err(BuildError::DuplicateGate);
        }
        if self.cells[left].layer_id != self.cells[right].layer_id {
            return Err(BuildError::IllegalGate);
        }
        proof {
            lemma_ordered_cells_bounds(self.cells@);
            lemma_layer_count_bounds(self.cells@);
        }
        let idx = self.cells.len();
        let layer = self.cells[left].layer_id + 1;
        let cell = Cell { index: idx, layer_id: layer, gate_type: gate };
        match gate {
            CellGateType::Mul(_, _) => self.mul_gates.insert(key),
            _ => self.add_gates.insert(key),
        };
        self.cells.push(cell);
        if layer == self.n_layer {
            assert(self.n_layer < self.cells.len());
            self.n_layer += 1
        }
        proof {
            let before = old(self)@;
            assert(self.cells@.drop_last() == before);
            assert(cell_ok(self.cells@, idx as int));
            lemma_push_keeps_valid(before, cell);
            assert forall|l: usize, r: usize| #[trigger]
                self.add_gates@.contains(pair_key(l, r)) <==> has_gate(
                    self.cells@,
                    CellGateType::Add(l, r),
                ) by {
                lemma_has_gate_push(before, cell, CellGateType::Add(l, r));
                if pair_key(l, r) == key {
                    lemma_pair_key_injective(l, r, left, right);
                }
            }
            assert forall|l: usize, r: usize| #[trigger]
                self.mul_gates@.contains(pair_key(l, r)) <==> has_gate(
                    self.cells@,
                    CellGateType::Mul(l, r),
                ) by {
                lemma_has_gate_push(before, cell, CellGateType::Mul(l, r));
                if pair_key(l, r) == key {
                    lemma_pair_key_injective(l, r, left, right);
                }
            }
        }
        Ok(idx)
    }
}

} // verus!
