//! From a circuit back to a flat description, and from there to the same
//! circuit again.
use vstd::prelude::*;
use crate::circuit::{layer_views, Circuit, CircuitView, Gate, GateType};
use crate::cell_list::{
    cell_ok, layer_count, lemma_layer_count_bounds, lemma_ordered_cells_bounds, valid_cells,
};
use crate::circuit_builder::{Cell, CellGateType};
use crate::layering::{
    built_circuit, kept, layer_members, lemma_built_circuit_well_formed, lemma_kept_layer,
    lemma_kept_operands, lemma_members_below,
};
use crate::declarative_builder::{
    all_consecutive, cell_at, consecutive, defect_at, holds, is_at, layer_size, projected_gate,
    projected_layer, DeclarativeBuilder, Description,
};
use crate::flat::lemma_layer_size_zero;

verus! {

/// The witness that stands for the input `i`.
pub open spec fn input_cell(i: int) -> Cell {
    Cell { index: i as usize, layer_id: 0, gate_type: CellGateType::Witness }
}

/// The cell that stands for `gate` at position `i` of the layer with id `layer`.
pub open spec fn gate_cell(gate: Gate, layer: int, i: int) -> Cell {
    Cell {
        index: i as usize,
        layer_id: layer as usize,
        gate_type: match gate.ty {
            GateType::Add => CellGateType::Add(gate.left, gate.right),
            GateType::Mul => CellGateType::Mul(gate.left, gate.right),
        },
    }
}

/// The cells of the layer with id `layer`: the inputs for layer 0, and
/// above it the gates of the circuit's layer that lies `layer` steps from
/// the inputs.
pub open spec fn layer_cells(c: CircuitView, layer: int) -> Seq<Cell> {
    if layer == 0 {
        Seq::new(c.num_inputs, |i: int| input_cell(i))
    } else {
        let gates = c.layers[c.layers.len() - layer];
        Seq::new(gates.len(), |i: int| gate_cell(gates[i], layer, i))
    }
}

/// The cells of the layers with ids up to `layer`, layer 0 first.
pub open spec fn cells_up_to(c: CircuitView, layer: int) -> Seq<Cell>
    decreases layer + 1,
{
    if layer < 0 {
        Seq::empty()
    } else {
        cells_up_to(c, layer - 1) + layer_cells(c, layer)
    }
}

/// The flat list of the cells of a circuit: the inputs, then layer by
/// layer the gates, from the layer next to the inputs to the outputs.
pub open spec fn flat_cells(c: CircuitView) -> Seq<Cell> {
    cells_up_to(c, c.layers.len() as int)
}

/// The flat description of a circuit. A circuit without inputs and
/// without gates has no layer at all; every other has the layer of its
/// inputs and one for each layer of gates.
pub open spec fn described(c: CircuitView) -> Description {
    Description {
        cells: flat_cells(c),
        n_layers: if c.layers.len() == 0 && c.num_inputs == 0 {
            0
        } else {
            c.layers.len() + 1
        },
        n_inputs: c.num_inputs,
        n_outputs: if c.layers.len() == 0 {
            c.num_inputs
        } else {
            c.layers[0].len()
        },
    }
}

/// The circuit can be described: layer ids and indices fit the machine's
/// integers, and either it is empty or neither its inputs nor any of its
/// layers are.
pub open spec fn describable(c: CircuitView) -> bool {
    &&& c.layers.len() <= usize::MAX
    &&& c.num_inputs <= usize::MAX + 1
    &&& forall|d: int| 0 <= d < c.layers.len() ==> (#[trigger] c.layers[d]).len() <= usize::MAX + 1
    &&& (c.layers.len() == 0 && c.num_inputs == 0) || {
        &&& c.num_inputs > 0
        &&& forall|d: int| 0 <= d < c.layers.len() ==> (#[trigger] c.layers[d]).len() > 0
    }
}

/// The list position at which the layer with id `layer` begins.
pub open spec fn layer_start(c: CircuitView, layer: int) -> int {
    cells_up_to(c, layer - 1).len() as int
}

/// The list position `p` of `cells` holds the cell `i` of the layer `layer`.
pub open spec fn placed(c: CircuitView, cells: Seq<Cell>, p: int, layer: int, i: int) -> bool {
    &&& 0 <= i < layer_cells(c, layer).len()
    &&& p == layer_start(c, layer) + i
    &&& 0 <= p < cells.len()
    &&& cells[p] == layer_cells(c, layer)[i]
}

/// The size of a layer in two lists put together.
pub proof fn lemma_layer_size_add(s: Seq<Cell>, t: Seq<Cell>, layer: int)
    ensures
        layer_size(s + t, layer) == layer_size(s, layer) + layer_size(t, layer),
    decreases t.len(),
{
    if t.len() == 0 {
        assert(s + t == s);
    } else {
        assert((s + t).drop_last() == s + t.drop_last());
        lemma_layer_size_add(s, t.drop_last(), layer);
    }
}

/// A list whose cells all lie in one layer has that layer's size as its length.
pub proof fn lemma_layer_size_all(cells: Seq<Cell>, layer: int)
    requires
        forall|j: int| 0 <= j < cells.len() ==> (#[trigger] cells[j]).layer_id == layer,
    ensures
        layer_size(cells, layer) == cells.len(),
    decreases cells.len(),
{
    if cells.len() > 0 {
        let rest = cells.drop_last();
        assert(cells[cells.len() - 1].layer_id == layer);
        assert forall|j: int| 0 <= j < rest.len() implies (#[trigger] rest[j]).layer_id == layer by {
            assert(cells[j].layer_id == layer);
        }
        lemma_layer_size_all(rest, layer);
    }
}

/// The list position `p` of `cells` holds a cell of a layer up to `top`.
pub open spec fn located(c: CircuitView, cells: Seq<Cell>, top: int, p: int) -> bool {
    exists|layer: int, i: int| 0 <= layer <= top && #[trigger] placed(c, cells, p, layer, i)
}

/// The cell `i` of the layer `layer` stands in `cells` at its place.
pub open spec fn at_home(c: CircuitView, cells: Seq<Cell>, layer: int, i: int) -> bool {
    placed(c, cells, layer_start(c, layer) + i, layer, i)
}

/// Every cell of the list up to `top` is a cell of one of the layers, at
/// its place after the layers before it; each layer has its size.
proof fn lemma_cells_up_to(c: CircuitView, top: int)
    requires
        describable(c),
        -1 <= top <= c.layers.len(),
    ensures
        forall|p: int|
            0 <= p < cells_up_to(c, top).len() ==> #[trigger] located(c, cells_up_to(c, top), top, p),
        forall|layer: int, i: int|
            0 <= layer <= top && 0 <= i < layer_cells(c, layer).len() ==> #[trigger] at_home(
                c,
                cells_up_to(c, top),
                layer,
                i,
            ),
        forall|layer: int|
            #[trigger] layer_size(cells_up_to(c, top), layer) == if 0 <= layer <= top {
                layer_cells(c, layer).len()
            } else {
                0
            },
    decreases top + 1,
{
    let cells = cells_up_to(c, top);
    if top >= 0 {
        let before = cells_up_to(c, top - 1);
        let last = layer_cells(c, top);
        lemma_cells_up_to(c, top - 1);
        assert forall|p: int| 0 <= p < cells.len() implies #[trigger] located(c, cells, top, p) by {
            if p < before.len() {
                assert(before[p] == cells[p]);
                assert(located(c, before, top - 1, p));
                let (layer, i) = choose|layer: int, i: int|
                    0 <= layer <= top - 1 && #[trigger] placed(c, before, p, layer, i);
                assert(placed(c, cells, p, layer, i));
            } else {
                assert(placed(c, cells, p, top, p - before.len()));
            }
        }
        assert forall|layer: int, i: int|
            0 <= layer <= top && 0 <= i < layer_cells(c, layer).len() implies #[trigger] at_home(
            c,
            cells,
            layer,
            i,
        ) by {
            if layer < top {
                assert(at_home(c, before, layer, i));
            }
        }
        assert forall|layer: int|
            #[trigger] layer_size(cells, layer) == if 0 <= layer <= top {
                layer_cells(c, layer).len()
            } else {
                0
            } by {
            lemma_layer_size_add(before, last, layer);
            if layer == top {
                lemma_layer_size_all(last, layer);
            } else {
                lemma_layer_size_zero(last, layer);
            }
        }
    } else {
        assert(cells.len() == 0);
    }
}

/// What the flat list of a circuit holds: each layer has its size and
/// consecutive indices, and the cell with a given layer and index is the
/// one that was made for it.
proof fn lemma_flat_cells(c: CircuitView)
    requires
        describable(c),
    ensures
        all_consecutive(flat_cells(c)),
        forall|layer: int|
            #[trigger] layer_size(flat_cells(c), layer) == if 0 <= layer <= c.layers.len() {
                layer_cells(c, layer).len()
            } else {
                0
            },
        forall|layer: int, i: int|
            0 <= layer <= c.layers.len() && 0 <= i < layer_cells(c, layer).len() ==> #[trigger] cell_at(
                flat_cells(c),
                layer,
                i,
            ) == layer_cells(c, layer)[i],
{
    let top = c.layers.len() as int;
    let cells = flat_cells(c);
    lemma_cells_up_to(c, top);
    assert forall|p: int| 0 <= p < cells.len() implies {
        let layer = (#[trigger] cells[p]).layer_id as int;
        let i = cells[p].index as int;
        &&& 0 <= layer <= top
        &&& placed(c, cells, p, layer, i)
    } by {
        assert(located(c, cells, top, p));
        let (layer, i) = choose|layer: int, i: int|
            0 <= layer <= top && #[trigger] placed(c, cells, p, layer, i);
        assert(cells[p].layer_id == layer);
        assert(cells[p].index == i);
    }
    assert forall|layer: int| #[trigger] consecutive(cells, layer) by {
        assert forall|j: int, k: int|
            0 <= j < k < cells.len() && (#[trigger] cells[j]).layer_id == layer && (
            #[trigger] cells[k]).layer_id == layer implies cells[j].index != cells[k].index by {
            assert(placed(c, cells, j, layer, cells[j].index as int));
            assert(placed(c, cells, k, layer, cells[k].index as int));
        }
        assert forall|j: int, i: int|
            0 <= j < cells.len() && (#[trigger] cells[j]).layer_id == layer && 0 <= i
                < cells[j].index implies #[trigger] holds(cells, layer, i) by {
            assert(placed(c, cells, j, layer, cells[j].index as int));
            assert(at_home(c, cells, layer, i));
            assert(is_at(cells, layer_start(c, layer) + i, layer, i));
        }
    }
    assert forall|layer: int, i: int|
        0 <= layer <= top && 0 <= i < layer_cells(c, layer).len() implies #[trigger] cell_at(
        cells,
        layer,
        i,
    ) == layer_cells(c, layer)[i] by {
        assert(at_home(c, cells, layer, i));
        assert(is_at(cells, layer_start(c, layer) + i, layer, i));
        let j = choose|j: int| is_at(cells, j, layer, i);
        assert(placed(c, cells, j, layer, i));
    }
}

/// A well-formed circuit that can be described is given back by its flat
/// description: the description is consistent, and the circuit that it
/// stands for is the circuit that was described.
pub proof fn lemma_description_round_trip(c: CircuitView)
    requires
        c.well_formed(),
        describable(c),
    ensures
        described(c).valid(),
        described(c).circuit() == c,
{
    let top = c.layers.len() as int;
    let cells = flat_cells(c);
    let d = described(c);
    lemma_flat_cells(c);
    assert forall|layer: int| 0 <= layer < d.n_layers implies #[trigger] layer_size(cells, layer)
        > 0 by {
        if layer > 0 {
            assert(c.layers[top - layer].len() > 0);
        }
    }
    assert(layer_size(cells, 0) == c.num_inputs);
    assert(layer_size(cells, d.n_layers - 1) == d.n_outputs);
    assert forall|layer: int, i: int|
        1 <= layer < d.n_layers && 0 <= i < layer_size(cells, layer) implies !#[trigger] defect_at(
        cells,
        layer,
        i,
    ) by {
        assert(layer_size(cells, layer) == layer_cells(c, layer).len());
        assert(cell_at(cells, layer, i) == layer_cells(c, layer)[i]);
        assert(layer_size(cells, layer - 1) == layer_cells(c, layer - 1).len());
        let gate = c.layers[top - layer][i];
        assert(gate.left < c.width_below(top - layer));
        assert(gate.right < c.width_below(top - layer));
    }
    assert forall|k: int| 0 <= k < c.layers.len() implies #[trigger] d.circuit().layers[k]
        == c.layers[k] by {
        let layer = top - k;
        assert(layer_size(cells, layer) == layer_cells(c, layer).len());
        assert forall|i: int| 0 <= i < c.layers[k].len() implies projected_gate(
            cell_at(cells, layer, i),
        ) == c.layers[k][i] by {
            assert(cell_at(cells, layer, i) == layer_cells(c, layer)[i]);
        }
        assert(projected_layer(cells, layer) =~= c.layers[k]);
    }
    assert(d.circuit().layers =~= c.layers);
}

/// Every layer of the circuit of a valid cell list, and its inputs, hold
/// at least one cell.
pub proof fn lemma_layers_inhabited(cells: Seq<Cell>, d: nat)
    requires
        valid_cells(cells),
        d < layer_count(cells),
    ensures
        layer_members(cells, d).len() > 0,
        exists|i: int| kept(cells, d).contains(i),
    decreases d,
{
    lemma_layer_count_bounds(cells);
    let n = cells.len() as int;
    if d == 0 {
        let i = choose|i: int|
            0 <= i < cells.len() && (#[trigger] cells[i]).layer_id + 1 == layer_count(cells);
        assert(kept(cells, 0).contains(i));
        lemma_members_below(kept(cells, 0), n);
        assert(layer_members(cells, 0).contains(i));
    } else {
        let up = (d - 1) as nat;
        lemma_layers_inhabited(cells, up);
        let c = choose|c: int| kept(cells, up).contains(c);
        lemma_kept_layer(cells, up);
        lemma_kept_operands(cells, up, c);
        let l = cells[c].gate_type.spec_operands().unwrap().0;
        assert(kept(cells, d).contains(l));
        lemma_members_below(kept(cells, d), n);
        assert(layer_members(cells, d).contains(l));
    }
}

/// The circuit built from a valid cell list comes back from its flat
/// description: the description is consistent, and it stands for the same
/// circuit.
pub proof fn lemma_built_circuit_round_trip(cells: Seq<Cell>)
    requires
        valid_cells(cells),
    ensures
        described(built_circuit(cells)).valid(),
        described(built_circuit(cells)).circuit() == built_circuit(cells),
{
    let c = built_circuit(cells);
    let n = layer_count(cells);
    lemma_built_circuit_well_formed(cells);
    lemma_layer_count_bounds(cells);
    lemma_ordered_cells_bounds(cells);
    if cells.len() > 0 {
        assert(cell_ok(cells, cells.len() - 1));
        lemma_layers_inhabited(cells, (n - 1) as nat);
        lemma_members_below(kept(cells, (n - 1) as nat), cells.len() as int);
        assert forall|d: int| 0 <= d < c.layers.len() implies 0 < (#[trigger] c.layers[d]).len()
            <= usize::MAX + 1 by {
            lemma_layers_inhabited(cells, d as nat);
            lemma_members_below(kept(cells, d as nat), cells.len() as int);
        }
    }
    lemma_description_round_trip(c);
}

impl DeclarativeBuilder {
    /// The flat description of `circuit`: a witness for each input, and
    /// for each gate a cell with that gate's position as its index and
    /// with its operands as they are, in the layer that lies as many steps
    /// above layer 0 as that gate's layer lies from the inputs.
    pub fn from_circuit(circuit: &Circuit) -> (builder: DeclarativeBuilder)
        requires
            circuit@.layers.len() < usize::MAX,
        ensures
            builder@ == described(circuit@),
            describable(circuit@) ==> builder@.valid() && builder@.circuit() == circuit@,
    {
        let ghost c = circuit@;
        let layers = circuit.layers();
        proof {
            if describable(c) {
                lemma_description_round_trip(c);
            }
        }
        let depth = layers.len();
        let num_inputs = circuit.num_inputs();
        let mut cells: Vec<Cell> = Vec::new();
        let mut i: usize = 0;
        while i < num_inputs
            invariant
                i <= num_inputs,
                num_inputs == c.num_inputs,
                cells@.len() == i,
                forall|k: int| 0 <= k < i ==> #[trigger] cells@[k] == input_cell(k),
            decreases num_inputs - i,
        {
            cells.push(Cell { index: i, layer_id: 0, gate_type: CellGateType::Witness });
            i += 1;
        }
        assert(cells@ =~= cells_up_to(c, 0)) by {
            assert(cells_up_to(c, -1) =~= Seq::<Cell>::empty());
            assert(cells@ =~= layer_cells(c, 0));
        }
        let mut layer: usize = 1;
        while layer <= depth
            invariant
                1 <= layer <= depth + 1,
                depth < usize::MAX,
                depth == c.layers.len(),
                layer_views(layers@) == c.layers,
                cells@ == cells_up_to(c, layer - 1),
            decreases depth + 1 - layer,
        {
            let ghost before = cells@;
            let gates = layers[depth - layer].gates();
            assert(gates@ == c.layers[depth - layer]);
            let n = gates.len();
            let mut i: usize = 0;
            while i < n
                invariant
                    i <= n,
                    n == gates@.len(),
                    gates@ == c.layers[depth - layer],
                    1 <= layer <= depth,
                    depth == c.layers.len(),
                    cells@.len() == before.len() + i,
                    forall|k: int| 0 <= k < before.len() ==> #[trigger] cells@[k] == before[k],
                    forall|p: int|
                        before.len() <= p < cells@.len() ==> #[trigger] cells@[p] == gate_cell(
                            gates@[p - before.len()],
                            layer as int,
                            p - before.len(),
                        ),
                decreases n - i,
            {
                let gate = gates[i];
                let gate_type = match gate.ty {
                    GateType::Add => CellGateType::Add(gate.left, gate.right),
                    GateType::Mul => CellGateType::Mul(gate.left, gate.right),
                };
                cells.push(Cell { index: i, layer_id: layer, gate_type });
                i += 1;
            }
            assert(cells@ =~= before + layer_cells(c, layer as int));
            layer += 1;
        }
        let n_layers = if depth == 0 && num_inputs == 0 {
            0
        } else {
            depth + 1
        };
        let n_outputs = if depth == 0 {
            num_inputs
        } else {
            layers[0].len()
        };
        DeclarativeBuilder::new(cells, n_layers, num_inputs, n_outputs)
    }
}

} // verus!
