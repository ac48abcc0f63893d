//! Building a circuit from a flat description.
//!
//! A [`DeclarativeBuilder`] is handed every cell with its layer id and its
//! index within that layer, and the number of layers, of inputs and of
//! outputs. `build` checks that the description is consistent and projects
//! it into the layered circuit; an inconsistent description is refused
//! with a [`StructuralError`], and no part of a circuit is returned.
use vstd::prelude::*;
use crate::circuit::{layer_views, Circuit, CircuitLayer, CircuitView, Gate, GateType};
use crate::circuit_builder::{Cell, CellGateType};
use crate::flat::{
    in_place, key_le, lemma_cell_at_permutation, lemma_consecutive_permutation,
    lemma_in_place_consecutive, lemma_layer_size_bound, lemma_layer_size_permutation,
    lemma_layer_size_step, lemma_layer_size_zero, lemma_out_of_place, ordered,
};

verus! {

/// Why a flat description is no circuit. Each kind names the layer in
/// which the fault was found.
#[derive(Clone, Copy, Debug, PartialEq, Eq, Structural)]
pub enum StructuralError {
    /// The indices of the cells of `layer` are not `0, 1, 2, ...` without
    /// gap and without repetition.
    NonConsecutiveIndex { layer: usize },
    /// No cell lies in `layer`, which is below the declared layer count.
    EmptyLayer { layer: usize },
    /// The size of `layer` differs from what was declared: layer 0 against
    /// the inputs, the highest layer against the outputs.
    CountMismatch { layer: usize },
    /// A witness lies in `layer`, which is not layer 0.
    WitnessOutsideInputLayer { layer: usize },
    /// A gate of `layer` has an operand that is no index of the layer below.
    OperandOutOfRange { layer: usize },
}

/// The number of cells in `layer`.
pub open spec fn layer_size(cells: Seq<Cell>, layer: int) -> nat
    decreases cells.len(),
{
    if cells.len() == 0 {
        0
    } else if cells.last().layer_id == layer {
        layer_size(cells.drop_last(), layer) + 1
    } else {
        layer_size(cells.drop_last(), layer)
    }
}

/// Whether the list position `j` holds the cell with the given layer and index.
pub open spec fn is_at(cells: Seq<Cell>, j: int, layer: int, index: int) -> bool {
    0 <= j < cells.len() && cells[j].layer_id == layer && cells[j].index == index
}

/// Whether some cell has the given layer and index.
pub open spec fn holds(cells: Seq<Cell>, layer: int, index: int) -> bool {
    exists|j: int| is_at(cells, j, layer, index)
}

/// No two cells of `layer` have the same index.
pub open spec fn distinct_in_layer(cells: Seq<Cell>, layer: int) -> bool {
    forall|j: int, k: int|
        0 <= j < k < cells.len() && (#[trigger] cells[j]).layer_id == layer && (
        #[trigger] cells[k]).layer_id == layer ==> cells[j].index != cells[k].index
}

/// Below the index of each cell of `layer` no index is missing.
pub open spec fn gapless_in_layer(cells: Seq<Cell>, layer: int) -> bool {
    forall|j: int, i: int|
        0 <= j < cells.len() && (#[trigger] cells[j]).layer_id == layer && 0 <= i
            < cells[j].index ==> #[trigger] holds(cells, layer, i)
}

/// The indices of the cells of `layer` are `0, 1, 2, ...` up to the size
/// of the layer, each once.
pub open spec fn consecutive(cells: Seq<Cell>, layer: int) -> bool {
    distinct_in_layer(cells, layer) && gapless_in_layer(cells, layer)
}

/// The cell with the given layer and index.
pub open spec fn cell_at(cells: Seq<Cell>, layer: int, index: int) -> Cell {
    cells[choose|j: int| is_at(cells, j, layer, index)]
}

/// Whether `cell`, taken as a cell above layer 0 over a layer of `below`
/// cells, is a witness or reads an index that the layer below lacks.
pub open spec fn defective(cell: Cell, below: nat) -> bool {
    match cell.gate_type.spec_operands() {
        Some((l, r)) => l >= below || r >= below,
        None => true,
    }
}

/// What a cell is projected to: a gate of its kind with its operands as they are.
pub open spec fn projected_gate(cell: Cell) -> Gate {
    match cell.gate_type {
        CellGateType::Add(l, r) => Gate { ty: GateType::Add, left: l, right: r },
        CellGateType::Mul(l, r) => Gate { ty: GateType::Mul, left: l, right: r },
        CellGateType::Witness => Gate { ty: GateType::Add, left: 0, right: 0 },
    }
}

/// The gates of `layer`, by index.
pub open spec fn projected_layer(cells: Seq<Cell>, layer: int) -> Seq<Gate> {
    Seq::new(layer_size(cells, layer), |i: int| projected_gate(cell_at(cells, layer, i)))
}

/// The circuit that a flat description of `n_layers` layers stands for: the
/// layers above layer 0, the highest first, over `n_inputs` inputs.
pub open spec fn projected_circuit(cells: Seq<Cell>, n_layers: nat, n_inputs: nat) -> CircuitView {
    CircuitView {
        layers: Seq::new(
            if n_layers == 0 {
                0
            } else {
                (n_layers - 1) as nat
            },
            |d: int| projected_layer(cells, n_layers - 1 - d),
        ),
        num_inputs: n_inputs,
    }
}

/// Every layer has consecutive indices.
pub open spec fn all_consecutive(cells: Seq<Cell>) -> bool {
    forall|layer: int| #[trigger] consecutive(cells, layer)
}

/// Every layer below the layer count holds a cell.
pub open spec fn all_inhabited(cells: Seq<Cell>, n_layers: nat) -> bool {
    forall|layer: int| 0 <= layer < n_layers ==> #[trigger] layer_size(cells, layer) > 0
}

/// Layer 0 has as many cells as inputs were declared, and the highest
/// layer as many as outputs were declared.
pub open spec fn counts_match(cells: Seq<Cell>, n_layers: nat, n_inputs: nat, n_outputs: nat) -> bool {
    layer_size(cells, 0) == n_inputs && layer_size(cells, n_layers - 1) == n_outputs
}

/// Whether the cell with the given layer and index is defective.
pub open spec fn defect_at(cells: Seq<Cell>, layer: int, index: int) -> bool {
    defective(cell_at(cells, layer, index), layer_size(cells, layer - 1))
}

/// No cell above layer 0 and below the layer count is defective.
pub open spec fn no_defects(cells: Seq<Cell>, n_layers: nat) -> bool {
    forall|layer: int, index: int|
        1 <= layer < n_layers && 0 <= index < layer_size(cells, layer) ==> !#[trigger] defect_at(
            cells,
            layer,
            index,
        )
}

/// The cell with the given layer and index is the first defective one,
/// going from the highest layer down and through each layer by index.
pub open spec fn first_defect(cells: Seq<Cell>, n_layers: nat, layer: int, index: int) -> bool {
    &&& 1 <= layer < n_layers
    &&& 0 <= index < layer_size(cells, layer)
    &&& defect_at(cells, layer, index)
    &&& forall|i: int| 0 <= i < index ==> !#[trigger] defect_at(cells, layer, i)
    &&& forall|k: int, i: int|
        layer < k < n_layers && 0 <= i < layer_size(cells, k) ==> !#[trigger] defect_at(cells, k, i)
}

/// The description is consistent, so that it stands for a circuit.
pub open spec fn structurally_valid(
    cells: Seq<Cell>,
    n_layers: nat,
    n_inputs: nat,
    n_outputs: nat,
) -> bool {
    &&& all_consecutive(cells)
    &&& all_inhabited(cells, n_layers)
    &&& counts_match(cells, n_layers, n_inputs, n_outputs)
    &&& no_defects(cells, n_layers)
}

/// What `error` says of the description, and exactly when it is given: the
/// checks are made in the order of the five kinds, and each names the first
/// layer that fails it.
pub open spec fn explains(
    error: StructuralError,
    cells: Seq<Cell>,
    n_layers: nat,
    n_inputs: nat,
    n_outputs: nat,
) -> bool {
    match error {
        StructuralError::NonConsecutiveIndex { layer } => {
            &&& !consecutive(cells, layer as int)
            &&& forall|k: int| 0 <= k < layer ==> #[trigger] consecutive(cells, k)
        },
        StructuralError::EmptyLayer { layer } => {
            &&& all_consecutive(cells)
            &&& layer < n_layers
            &&& layer_size(cells, layer as int) == 0
            &&& forall|k: int| 0 <= k < layer ==> #[trigger] layer_size(cells, k) > 0
        },
        StructuralError::CountMismatch { layer } => {
            &&& all_consecutive(cells)
            &&& all_inhabited(cells, n_layers)
            &&& if layer_size(cells, 0) != n_inputs {
                layer == 0
            } else {
                &&& layer_size(cells, n_layers - 1) != n_outputs
                &&& layer == if n_layers == 0 {
                    0
                } else {
                    n_layers - 1
                }
            }
        },
        StructuralError::WitnessOutsideInputLayer { layer } => {
            &&& all_consecutive(cells)
            &&& all_inhabited(cells, n_layers)
            &&& counts_match(cells, n_layers, n_inputs, n_outputs)
            &&& exists|index: int| #[trigger]
                first_defect(cells, n_layers, layer as int, index) && cell_at(
                    cells,
                    layer as int,
                    index,
                ).gate_type == CellGateType::Witness
        },
        StructuralError::OperandOutOfRange { layer } => {
            &&& all_consecutive(cells)
            &&& all_inhabited(cells, n_layers)
            &&& counts_match(cells, n_layers, n_inputs, n_outputs)
            &&& exists|index: int| #[trigger]
                first_defect(cells, n_layers, layer as int, index) && cell_at(
                    cells,
                    layer as int,
                    index,
                ).gate_type != CellGateType::Witness
        },
    }
}

/// The circuit of a consistent description is well formed: every operand
/// of every gate is a position of the layer below it.
pub proof fn lemma_projected_circuit_well_formed(
    cells: Seq<Cell>,
    n_layers: nat,
    n_inputs: nat,
    n_outputs: nat,
)
    requires
        structurally_valid(cells, n_layers, n_inputs, n_outputs),
    ensures
        projected_circuit(cells, n_layers, n_inputs).well_formed(),
{
    let circuit = projected_circuit(cells, n_layers, n_inputs);
    assert forall|d: int, i: int|
        0 <= d < circuit.layers.len() && 0 <= i < circuit.layers[d].len() implies {
        &&& (#[trigger] circuit.layers[d][i]).left < circuit.width_below(d)
        &&& circuit.layers[d][i].right < circuit.width_below(d)
    } by {
        let layer = n_layers - 1 - d;
        assert(!defect_at(cells, layer, i));
        assert(circuit.width_below(d) == layer_size(cells, layer - 1));
    }
}

/// Sorts `v` with `sort_by_key` of the standard library's slices, the key
/// of a cell being the pair of its layer id and its index. The contract
/// claims what its documentation says: the cells are the same, each as
/// often as before, and they stand in the order of their keys.
#[verifier::external_body]
fn sort_by_layer_and_index(v: &mut Vec<Cell>)
    ensures
        final(v)@.to_multiset() == old(v)@.to_multiset(),
        ordered(final(v)@),
{
    v.sort_by_key(|c| (c.layer_id, c.index));
}

/// The list position of the cell `i` of `layer`, where the layer begins at
/// `starts[layer]`.
pub open spec fn entry(starts: Seq<usize>, layer: int, i: int) -> int {
    starts[layer] + i
}

/// Walks through an ordered list and checks that every cell stands in its
/// place. Returns, for the layers from layer 0 up to the first one that
/// holds no cell, the size of each and the position at which it begins;
/// or the layer of the first cell that is out of place.
fn measure(sorted: &Vec<Cell>) -> (res: Result<(Vec<usize>, Vec<usize>), usize>)
    requires
        ordered(sorted@),
    ensures
        match res {
            Ok((sizes, starts)) => {
                &&& forall|j: int| 0 <= j < sorted@.len() ==> in_place(sorted@, j)
                &&& sizes@.len() == starts@.len()
                &&& forall|k: int|
                    0 <= k < sizes@.len() ==> #[trigger] sizes@[k] == layer_size(sorted@, k)
                        && sizes@[k] > 0
                &&& layer_size(sorted@, sizes@.len() as int) == 0
                &&& forall|k: int, i: int|
                    0 <= k < sizes@.len() && 0 <= i < sizes@[k] ==> is_at(
                        sorted@,
                        #[trigger] entry(starts@, k, i),
                        k,
                        i,
                    )
            },
            Err(layer) => exists|p: int|
                {
                    &&& 0 <= p < sorted@.len()
                    &&& (#[trigger] sorted@[p]).layer_id == layer
                    &&& forall|j: int| 0 <= j < p ==> in_place(sorted@, j)
                    &&& !in_place(sorted@, p)
                },
        },
{
    let mut sizes: Vec<usize> = Vec::new();
    let mut starts: Vec<usize> = Vec::new();
    let n = sorted.len();
    let mut count: usize = 0;
    let mut p: usize = 0;
    assert(sorted@.take(0).len() == 0);
    while p < n
        invariant
            ordered(sorted@),
            n == sorted@.len(),
            p <= n,
            sizes@.len() == starts@.len(),
            forall|j: int| 0 <= j < p ==> in_place(sorted@, j),
            forall|k: int|
                0 <= k < sizes@.len() ==> #[trigger] sizes@[k] == layer_size(
                    sorted@.take(p as int),
                    k,
                ) && sizes@[k] > 0,
            layer_size(sorted@.take(p as int), sizes@.len() as int) == 0,
            forall|k: int, i: int|
                0 <= k < sizes@.len() && 0 <= i < sizes@[k] ==> #[trigger] entry(starts@, k, i) < p
                    && is_at(sorted@, entry(starts@, k, i), k, i),
            p > 0 ==> count == layer_size(sorted@.take(p as int), sorted@[p - 1].layer_id as int),
            p > 0 && sorted@[p - 1].layer_id < sizes@.len() ==> starts@[sorted@[p - 1].layer_id as int]
                + count == p,
        decreases n - p,
    {
        let cell = sorted[p];
        let fresh = p == 0 || sorted[p - 1].layer_id != cell.layer_id;
        let expected = if fresh {
            0
        } else {
            count
        };
        let known = sizes.len();
        proof {
            let before = sorted@.take(p as int);
            if fresh {
                assert forall|j: int| 0 <= j < before.len() implies (#[trigger] before[j]).layer_id
                    != cell.layer_id by {
                    assert(key_le(sorted@[j], sorted@[p - 1]));
                    assert(key_le(sorted@[p - 1], sorted@[p as int]));
                }
                lemma_layer_size_zero(before, cell.layer_id as int);
            }
            lemma_layer_size_bound(before, cell.layer_id as int);
            assert forall|k: int| 0 <= k < known implies #[trigger] sizes@[k] + if cell.layer_id == k {
                1int
            } else {
                0int
            } == layer_size(sorted@.take(p + 1), k) by {
                lemma_layer_size_step(sorted@, p as int, k);
            }
            lemma_layer_size_step(sorted@, p as int, cell.layer_id as int);
            lemma_layer_size_step(sorted@, p as int, known as int);
            if cell.layer_id == known {
                let after = sorted@.take(p + 1);
                assert forall|j: int| 0 <= j < after.len() implies (#[trigger] after[j]).layer_id
                    != known + 1 by {
                    assert(key_le(sorted@[j], sorted@[p as int]));
                }
                lemma_layer_size_zero(after, known + 1);
            }
        }
        if cell.index != expected {
            return Err(cell.layer_id);
        }
        let ghost old_sizes = sizes@;
        let ghost old_starts = starts@;
        count = expected + 1;
        if cell.layer_id == known {
            sizes.push(count);
            starts.push(p);
        } else if cell.layer_id < known {
            sizes[cell.layer_id] = count;
        }
        proof {
            assert forall|k: int, i: int|
                0 <= k < sizes@.len() && 0 <= i < sizes@[k] implies #[trigger] entry(starts@, k, i) < p
                + 1 && is_at(sorted@, entry(starts@, k, i), k, i) by {
                if k == cell.layer_id && i == expected {
                    assert(entry(starts@, k, i) == p);
                } else {
                    assert(i < old_sizes[k]);
                    assert(entry(old_starts, k, i) == entry(starts@, k, i));
                }
            }
        }
        p += 1;
    }
    proof {
        assert(sorted@.take(n as int) == sorted@);
    }
    Ok((sizes, starts))
}

/// The cell `i` places after `start` in the list.
pub open spec fn slot(cells: Seq<Cell>, start: int, i: int) -> Cell {
    cells[start + i]
}

/// Projects the cells of one layer, which stand in `sorted` from `start`
/// on, into gates. Fails on the first cell that is a witness or that reads
/// an index not below `below`.
fn project_layer(sorted: &Vec<Cell>, start: usize, size: usize, below: usize, layer: usize) -> (res:
    Result<Vec<Gate>, StructuralError>)
    requires
        forall|i: int|
            0 <= i < size ==> is_at(sorted@, start + i, layer as int, i) && (#[trigger] slot(
                sorted@,
                start as int,
                i,
            )).index == i,
    ensures
        match res {
            Ok(gates) => {
                &&& gates@.len() == size
                &&& forall|i: int|
                    0 <= i < size ==> !defective(#[trigger] slot(sorted@, start as int, i), below as nat)
                &&& forall|i: int|
                    0 <= i < size ==> #[trigger] gates@[i] == projected_gate(
                        slot(sorted@, start as int, i),
                    )
            },
            Err(e) => exists|i: int|
                {
                    &&& 0 <= i < size
                    &&& defective(#[trigger] slot(sorted@, start as int, i), below as nat)
                    &&& forall|k: int|
                        0 <= k < i ==> !defective(
                            #[trigger] slot(sorted@, start as int, k),
                            below as nat,
                        )
                    &&& e == if slot(sorted@, start as int, i).gate_type == CellGateType::Witness {
                        StructuralError::WitnessOutsideInputLayer { layer }
                    } else {
                        StructuralError::OperandOutOfRange { layer }
                    }
                },
        },
{
    let mut gates: Vec<Gate> = Vec::new();
    let mut i: usize = 0;
    while i < size
        invariant
            i <= size,
            forall|k: int|
                0 <= k < size ==> is_at(sorted@, start + k, layer as int, k) && (#[trigger] slot(
                    sorted@,
                    start as int,
                    k,
                )).index == k,
            gates@.len() == i,
            forall|k: int|
                0 <= k < i ==> !defective(#[trigger] slot(sorted@, start as int, k), below as nat),
            forall|k: int|
                0 <= k < i ==> #[trigger] gates@[k] == projected_gate(slot(sorted@, start as int, k)),
        decreases size - i,
    {
        assert(slot(sorted@, start as int, i as int).index == i);
        assert(start + i < sorted.len());
        let cell = sorted[start + i];
        assert(cell == slot(sorted@, start as int, i as int));
        let gate = match cell.gate_type {
            CellGateType::Witness => {
                return Err(StructuralError::WitnessOutsideInputLayer { layer });
            },
            CellGateType::Add(l, r) => {
                if l >= below || r >= below {
                    return Err(StructuralError::OperandOutOfRange { layer });
                }
                Gate::new(GateType::Add, [l, r])
            },
            CellGateType::Mul(l, r) => {
                if l >= below || r >= below {
                    return Err(StructuralError::OperandOutOfRange { layer });
                }
                Gate::new(GateType::Mul, [l, r])
            },
        };
        gates.push(gate);
        i += 1;
    }
    Ok(gates)
}

/// `sizes` and `starts` describe where the cells of the first layers of
/// `cells` stand in the rearranged list `sorted`.
spec fn tabulated(cells: Seq<Cell>, sorted: Seq<Cell>, sizes: Seq<usize>, starts: Seq<usize>) -> bool {
    &&& sizes.len() == starts.len()
    &&& forall|k: int| 0 <= k < sizes.len() ==> #[trigger] sizes[k] == layer_size(cells, k)
    &&& forall|k: int, i: int|
        0 <= k < sizes.len() && 0 <= i < sizes[k] ==> {
            let j = #[trigger] entry(starts, k, i);
            &&& is_at(sorted, j, k, i)
            &&& sorted[j] == cell_at(cells, k, i)
        }
}

/// What a walk without fault through the ordered rearrangement `sorted`
/// shows of `cells`.
proof fn lemma_measured(cells: Seq<Cell>, sorted: Seq<Cell>, sizes: Seq<usize>, starts: Seq<usize>)
    requires
        sorted.to_multiset() == cells.to_multiset(),
        forall|j: int| 0 <= j < sorted.len() ==> in_place(sorted, j),
        sizes.len() == starts.len(),
        forall|k: int| 0 <= k < sizes.len() ==> #[trigger] sizes[k] == layer_size(sorted, k),
        layer_size(sorted, sizes.len() as int) == 0,
        forall|k: int, i: int|
            0 <= k < sizes.len() && 0 <= i < sizes[k] ==> is_at(
                sorted,
                #[trigger] entry(starts, k, i),
                k,
                i,
            ),
    ensures
        all_consecutive(cells),
        tabulated(cells, sorted, sizes, starts),
        layer_size(cells, sizes.len() as int) == 0,
{
    lemma_layer_size_permutation(sorted, cells, sizes.len() as int);
    assert forall|layer: int| #[trigger] consecutive(cells, layer) by {
        lemma_in_place_consecutive(sorted, sorted.len() as int, layer);
        lemma_consecutive_permutation(sorted, cells, layer);
    }
    assert forall|k: int| 0 <= k < sizes.len() implies #[trigger] sizes[k] == layer_size(cells, k) by {
        lemma_layer_size_permutation(sorted, cells, k);
    }
    assert forall|k: int, i: int| 0 <= k < sizes.len() && 0 <= i < sizes[k] implies {
        let j = #[trigger] entry(starts, k, i);
        &&& is_at(sorted, j, k, i)
        &&& sorted[j] == cell_at(cells, k, i)
    } by {
        assert(consecutive(cells, k));
        lemma_cell_at_permutation(sorted, cells, entry(starts, k, i), k, i);
    }
}

/// What a cell out of place in the ordered rearrangement `sorted` shows of `cells`.
proof fn lemma_mismeasured(cells: Seq<Cell>, sorted: Seq<Cell>, p: int)
    requires
        sorted.to_multiset() == cells.to_multiset(),
        ordered(sorted),
        0 <= p < sorted.len(),
        forall|j: int| 0 <= j < p ==> in_place(sorted, j),
        !in_place(sorted, p),
    ensures
        !consecutive(cells, sorted[p].layer_id as int),
        forall|k: int| 0 <= k < sorted[p].layer_id ==> #[trigger] consecutive(cells, k),
{
    let layer = sorted[p].layer_id as int;
    lemma_out_of_place(sorted, p);
    if consecutive(cells, layer) {
        lemma_consecutive_permutation(cells, sorted, layer);
    }
    assert forall|k: int| 0 <= k < layer implies #[trigger] consecutive(cells, k) by {
        assert forall|j: int| p <= j < sorted.len() implies (#[trigger] sorted[j]).layer_id != k by {
            assert(key_le(sorted[p], sorted[j]));
        }
        lemma_in_place_consecutive(sorted, p, k);
        lemma_consecutive_permutation(sorted, cells, k);
    }
}

/// What a [`DeclarativeBuilder`] was handed.
pub struct Description {
    /// The cells, in any order.
    pub cells: Seq<Cell>,
    /// The declared number of layers, layer 0 included.
    pub n_layers: nat,
    /// The declared number of inputs.
    pub n_inputs: nat,
    /// The declared number of outputs.
    pub n_outputs: nat,
}

impl Description {
    /// The description is consistent.
    pub open spec fn valid(self) -> bool {
        structurally_valid(self.cells, self.n_layers, self.n_inputs, self.n_outputs)
    }

    /// The circuit that the description stands for.
    pub open spec fn circuit(self) -> CircuitView {
        projected_circuit(self.cells, self.n_layers, self.n_inputs)
    }

    /// `error` is the fault that is found first.
    pub open spec fn refused_with(self, error: StructuralError) -> bool {
        explains(error, self.cells, self.n_layers, self.n_inputs, self.n_outputs)
    }
}

/// A flat description of a circuit, to be checked and projected by `build`.
pub struct DeclarativeBuilder {
    cells: Vec<Cell>,
    n_layers: usize,
    n_inputs: usize,
    n_outputs: usize,
}

impl View for DeclarativeBuilder {
    type V = Description;

    closed spec fn view(&self) -> Description {
        Description {
            cells: self.cells@,
            n_layers: self.n_layers as nat,
            n_inputs: self.n_inputs as nat,
            n_outputs: self.n_outputs as nat,
        }
    }
}

impl DeclarativeBuilder {
    /// A description of `n_layers` layers with the given cells, of which
    /// `n_inputs` are declared to lie in layer 0 and `n_outputs` in the
    /// highest layer.
    pub fn new(cells: Vec<Cell>, n_layers: usize, n_inputs: usize, n_outputs: usize) -> (builder:
        DeclarativeBuilder)
        ensures
            builder@.cells == cells@,
            builder@.n_layers == n_layers,
            builder@.n_inputs == n_inputs,
            builder@.n_outputs == n_outputs,
    {
        DeclarativeBuilder { cells, n_layers, n_inputs, n_outputs }
    }

    /// Checks the description and projects it into a circuit: the layers
    /// above layer 0, the highest first, each with its cells by index and
    /// the operands as they are. The checks are made in this order, and
    /// the first fault is returned: the indices of every layer are
    /// consecutive from 0; every declared layer holds a cell; layer 0 has
    /// as many cells as inputs were declared, and the highest layer as many
    /// as outputs; going from the highest layer down, no cell above layer 0
    /// is a witness or reads an index that the layer below lacks. A cell
    /// whose layer id is not below the declared layer count is held to the
    /// first check and takes no part in the circuit.
    pub fn build(&self) -> (res: Result<Circuit, StructuralError>)
        ensures
            res is Ok <==> self@.valid(),
            match res {
                Ok(circuit) => circuit@ == self@.circuit() && circuit@.well_formed(),
                Err(error) => self@.refused_with(error),
            },
    {
        let ghost cells = self.cells@;
        let n_layers = self.n_layers;
        let mut sorted = self.cells.clone();
        assert(sorted@ =~= cells);
        sort_by_layer_and_index(&mut sorted);
        let (sizes, starts) = match measure(&sorted) {
            Ok(table) => table,
            Err(layer) => {
                proof {
                    let p = choose|p: int|
                        {
                            &&& 0 <= p < sorted@.len()
                            &&& (#[trigger] sorted@[p]).layer_id == layer
                            &&& forall|j: int| 0 <= j < p ==> in_place(sorted@, j)
                            &&& !in_place(sorted@, p)
                        };
                    lemma_mismeasured(cells, sorted@, p);
                }
                return Err(StructuralError::NonConsecutiveIndex { layer });
            },
        };
        let known = sizes.len();
        proof {
            lemma_measured(cells, sorted@, sizes@, starts@);
            assert forall|k: int| 0 <= k < known implies #[trigger] layer_size(cells, k) > 0 by {
                assert(sizes@[k] == layer_size(cells, k));
            }
            if known > 0 {
                assert(sizes@[0] == layer_size(cells, 0));
            }
        }
        if known < n_layers {
            return Err(StructuralError::EmptyLayer { layer: known });
        }
        let inputs = if known == 0 {
            0
        } else {
            sizes[0]
        };
        if inputs != self.n_inputs {
            return Err(StructuralError::CountMismatch { layer: 0 });
        }
        let top = if n_layers == 0 {
            0
        } else {
            n_layers - 1
        };
        let outputs = if n_layers == 0 {
            0
        } else {
            sizes[top]
        };
        proof {
            if n_layers == 0 {
                lemma_layer_size_zero(cells, -1);
            } else {
                assert(sizes@[top as int] == layer_size(cells, top as int));
            }
        }
        if outputs != self.n_outputs {
            return Err(StructuralError::CountMismatch { layer: top });
        }
        let mut layers: Vec<CircuitLayer> = Vec::new();
        let mut layer: usize = n_layers;
        while layer > 1
            invariant
                layer <= n_layers,
                n_layers > 0 ==> layer >= 1,
                n_layers <= sizes@.len(),
                tabulated(cells, sorted@, sizes@, starts@),
                cells == self@.cells,
                n_layers == self@.n_layers,
                all_consecutive(cells),
                all_inhabited(cells, n_layers as nat),
                counts_match(cells, n_layers as nat, self.n_inputs as nat, self.n_outputs as nat),
                layers@.len() == n_layers - layer,
                forall|d: int|
                    0 <= d < layers@.len() ==> (#[trigger] layers@[d])@ == projected_layer(
                        cells,
                        n_layers - 1 - d,
                    ),
                forall|k: int, i: int|
                    layer <= k < n_layers && 0 <= i < layer_size(cells, k) ==> !#[trigger] defect_at(
                        cells,
                        k,
                        i,
                    ),
            decreases layer,
        {
            layer -= 1;
            let start = starts[layer];
            let size = sizes[layer];
            let below = sizes[layer - 1];
            proof {
                assert(sizes@[layer as int] == layer_size(cells, layer as int));
                assert(sizes@[layer - 1] == layer_size(cells, layer - 1));
                assert forall|i: int| 0 <= i < size implies is_at(sorted@, start + i, layer as int, i)
                    && (#[trigger] slot(sorted@, start as int, i)).index == i && slot(
                    sorted@,
                    start as int,
                    i,
                ) == cell_at(cells, layer as int, i) by {
                    let j = entry(starts@, layer as int, i);
                    assert(is_at(sorted@, j, layer as int, i));
                }
            }
            let gates = match project_layer(&sorted, start, size, below, layer) {
                Ok(gates) => gates,
                Err(error) => {
                    proof {
                        let i = choose|i: int|
                            {
                                &&& 0 <= i < size
                                &&& defective(#[trigger] slot(sorted@, start as int, i), below as nat)
                                &&& forall|k: int|
                                    0 <= k < i ==> !defective(
                                        #[trigger] slot(sorted@, start as int, k),
                                        below as nat,
                                    )
                                &&& error == if slot(sorted@, start as int, i).gate_type
                                    == CellGateType::Witness {
                                    StructuralError::WitnessOutsideInputLayer { layer }
                                } else {
                                    StructuralError::OperandOutOfRange { layer }
                                }
                            };
                        assert(slot(sorted@, start as int, i) == cell_at(cells, layer as int, i));
                        assert(defect_at(cells, layer as int, i));
                        assert forall|k: int| 0 <= k < i implies !#[trigger] defect_at(
                            cells,
                            layer as int,
                            k,
                        ) by {
                            assert(slot(sorted@, start as int, k) == cell_at(cells, layer as int, k));
                        }
                        assert(first_defect(cells, n_layers as nat, layer as int, i));
                        assert(!no_defects(cells, n_layers as nat));
                        assert(self@.refused_with(error));
                    }
                    return Err(error);
                },
            };
            proof {
                assert forall|i: int| 0 <= i < layer_size(cells, layer as int) implies !#[trigger] defect_at(
                    cells,
                    layer as int,
                    i,
                ) by {
                    assert(slot(sorted@, start as int, i) == cell_at(cells, layer as int, i));
                }
                assert forall|i: int| 0 <= i < size implies #[trigger] gates@[i] == projected_gate(
                    cell_at(cells, layer as int, i),
                ) by {
                    assert(slot(sorted@, start as int, i) == cell_at(cells, layer as int, i));
                }
                assert(gates@ =~= projected_layer(cells, layer as int));
            }
            layers.push(CircuitLayer::new(gates));
        }
        proof {
            assert(layer_views(layers@) =~= self@.circuit().layers);
            lemma_projected_circuit_well_formed(
                cells,
                n_layers as nat,
                self.n_inputs as nat,
                self.n_outputs as nat,
            );
        }
        Ok(Circuit::new(layers, self.n_inputs))
    }
}

} // verus!
