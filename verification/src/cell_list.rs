//! The cell list of a builder as a mathematical object: when it is valid,
//! how many layers it spans, and what offering a witness or a gate does to it.
use vstd::prelude::*;
use crate::circuit_builder::{BuildError, Cell, CellGateType};

verus! {

/// The cell `i` of `cells` carries its own position, and is either a witness
/// in layer 0 or a gate one layer above its two operands, which are earlier
/// cells of one common layer.
pub open spec fn cell_ok(cells: Seq<Cell>, i: int) -> bool {
    let c = cells[i];
    &&& c.index == i
    &&& match c.gate_type.spec_operands() {
        Some((l, r)) => {
            &&& 0 <= l < i
            &&& 0 <= r < i
            &&& cells[l].layer_id == cells[r].layer_id
            &&& c.layer_id == cells[l].layer_id + 1
        },
        None => c.layer_id == 0,
    }
}

/// The invariant of a builder's cell list: every cell is in order, and no
/// two gates agree in kind and in both operands.
pub open spec fn valid_cells(cells: Seq<Cell>) -> bool {
    &&& forall|i: int| 0 <= i < cells.len() ==> cell_ok(cells, i)
    &&& forall|i: int, j: int|
        0 <= i < j < cells.len() && (#[trigger] cells[i]).gate_type != CellGateType::Witness
            ==> cells[i].gate_type != (#[trigger] cells[j]).gate_type
}

/// The number of layers that the cells span: one more than the largest
/// layer id, and 0 for no cells.
pub open spec fn layer_count(cells: Seq<Cell>) -> nat
    decreases cells.len(),
{
    if cells.len() == 0 {
        0
    } else {
        let rest = layer_count(cells.drop_last());
        if cells.last().layer_id < rest {
            rest
        } else {
            (cells.last().layer_id + 1) as nat
        }
    }
}

/// The number of witness cells.
pub open spec fn witness_count(cells: Seq<Cell>) -> nat
    decreases cells.len(),
{
    if cells.len() == 0 {
        0
    } else if cells.last().gate_type == CellGateType::Witness {
        witness_count(cells.drop_last()) + 1
    } else {
        witness_count(cells.drop_last())
    }
}

/// Every layer id is below the layer count, and the highest layer is inhabited.
pub proof fn lemma_layer_count_bounds(cells: Seq<Cell>)
    ensures
        forall|i: int| 0 <= i < cells.len() ==> (#[trigger] cells[i]).layer_id < layer_count(cells),
        cells.len() > 0 ==> exists|i: int|
            0 <= i < cells.len() && (#[trigger] cells[i]).layer_id + 1 == layer_count(cells),
        cells.len() == 0 <==> layer_count(cells) == 0,
    decreases cells.len(),
{
    if cells.len() > 0 {
        let rest = cells.drop_last();
        lemma_layer_count_bounds(rest);
        assert forall|i: int| 0 <= i < cells.len() implies (#[trigger] cells[i]).layer_id
            < layer_count(cells) by {
            if i < rest.len() {
                assert(cells[i] == rest[i]);
            }
        }
        if cells.last().layer_id < layer_count(rest) {
            let i = choose|i: int|
                0 <= i < rest.len() && (#[trigger] rest[i]).layer_id + 1 == layer_count(rest);
            assert(cells[i] == rest[i]);
        } else {
            assert(cells[cells.len() - 1].layer_id + 1 == layer_count(cells));
        }
    }
}

/// Where every cell is in order, the witnesses and the layers are at most
/// as many as the cells, and a cell's layer id is at most its index.
pub proof fn lemma_ordered_cells_bounds(cells: Seq<Cell>)
    requires
        forall|i: int| 0 <= i < cells.len() ==> cell_ok(cells, i),
    ensures
        witness_count(cells) <= cells.len(),
        layer_count(cells) <= cells.len(),
        forall|i: int| 0 <= i < cells.len() ==> (#[trigger] cells[i]).layer_id <= i,
    decreases cells.len(),
{
    if cells.len() > 0 {
        let rest = cells.drop_last();
        assert forall|i: int| 0 <= i < rest.len() implies cell_ok(rest, i) by {
            assert(cell_ok(cells, i));
        }
        lemma_ordered_cells_bounds(rest);
        let n = cells.len() - 1;
        assert(cell_ok(cells, n));
        assert forall|i: int| 0 <= i < cells.len() implies (#[trigger] cells[i]).layer_id <= i by {
            if i < n {
                assert(cells[i] == rest[i]);
            } else {
                match cells[n].gate_type.spec_operands() {
                    Some((l, r)) => {
                        assert(cells[l] == rest[l]);
                    },
                    None => {},
                }
            }
        }
    }
}

/// Whether some cell of `cells` is `gate`.
pub open spec fn has_gate(cells: Seq<Cell>, gate: CellGateType) -> bool {
    exists|i: int| 0 <= i < cells.len() && (#[trigger] cells[i]).gate_type == gate
}

/// The cell list after a witness was added.
pub open spec fn with_witness(cells: Seq<Cell>) -> Seq<Cell> {
    cells.push(Cell { index: cells.len() as usize, layer_id: 0, gate_type: CellGateType::Witness })
}

/// What appending `gate` to `cells` answers: the new cell's index, or the
/// reason for refusing it. A duplicate is found before the layers are compared.
pub open spec fn append_result(cells: Seq<Cell>, gate: CellGateType) -> Result<usize, BuildError> {
    let (l, r) = gate.spec_operands().unwrap();
    if has_gate(cells, gate) {
        Err(BuildError::DuplicateGate)
    } else if cells[l].layer_id != cells[r].layer_id {
        Err(BuildError::IllegalGate)
    } else {
        Ok(cells.len() as usize)
    }
}

/// The cell list after `gate` was offered: one cell longer where it was
/// accepted, and unchanged where it was refused.
pub open spec fn append_cells(cells: Seq<Cell>, gate: CellGateType) -> Seq<Cell> {
    let (l, r) = gate.spec_operands().unwrap();
    if append_result(cells, gate) is Ok {
        cells.push(
            Cell {
                index: cells.len() as usize,
                layer_id: (cells[l].layer_id + 1) as usize,
                gate_type: gate,
            },
        )
    } else {
        cells
    }
}

impl CellGateType {
    /// This gate with its two operands exchanged.
    pub open spec fn swapped(self) -> CellGateType {
        match self {
            CellGateType::Add(l, r) => CellGateType::Add(r, l),
            CellGateType::Mul(l, r) => CellGateType::Mul(r, l),
            CellGateType::Witness => CellGateType::Witness,
        }
    }

    /// Whether this is a gate whose two operands are cells of `cells`.
    pub open spec fn fits(self, cells: Seq<Cell>) -> bool {
        match self.spec_operands() {
            Some((l, r)) => l < cells.len() && r < cells.len(),
            None => false,
        }
    }
}

/// A gate that was accepted is refused as a duplicate when it is offered again.
pub proof fn lemma_duplicate_rejected(cells: Seq<Cell>, gate: CellGateType)
    requires
        valid_cells(cells),
        gate.fits(cells),
        append_result(cells, gate) is Ok,
    ensures
        append_result(append_cells(cells, gate), gate) == Err::<usize, BuildError>(
            BuildError::DuplicateGate,
        ),
        append_cells(append_cells(cells, gate), gate) == append_cells(cells, gate),
{
    let after = append_cells(cells, gate);
    assert(after[cells.len() as int].gate_type == gate);
}

/// Duplicates are told apart by the order of the operands: after a gate on
/// two different cells was accepted, that gate with its operands exchanged
/// is accepted too, unless it was there before.
pub proof fn lemma_operand_order_matters(cells: Seq<Cell>, gate: CellGateType)
    requires
        valid_cells(cells),
        gate.fits(cells),
        gate != gate.swapped(),
        append_result(cells, gate) is Ok,
        !has_gate(cells, gate.swapped()),
    ensures
        append_result(append_cells(cells, gate), gate.swapped()) == Ok::<usize, BuildError>(
            (cells.len() + 1) as usize,
        ),
{
    let after = append_cells(cells, gate);
    let cell = after[cells.len() as int];
    lemma_has_gate_push(cells, cell, gate.swapped());
    assert(after == cells.push(cell));
}

/// A gate whose operands lie in different layers is refused as illegal,
/// and the cell list stays as it was.
pub proof fn lemma_cross_layer_rejected(cells: Seq<Cell>, gate: CellGateType)
    requires
        valid_cells(cells),
        gate.fits(cells),
        cells[gate.spec_operands().unwrap().0].layer_id != cells[gate.spec_operands().unwrap().1].layer_id,
    ensures
        append_result(cells, gate) == Err::<usize, BuildError>(BuildError::IllegalGate),
        append_cells(cells, gate) == cells,
        append_cells(cells, gate).len() == cells.len(),
{
    if has_gate(cells, gate) {
        let i = choose|i: int| 0 <= i < cells.len() && (#[trigger] cells[i]).gate_type == gate;
        assert(cell_ok(cells, i));
    }
}

/// An accepted gate, and a witness, keep the cell list valid.
pub proof fn lemma_append_keeps_valid(cells: Seq<Cell>, gate: CellGateType)
    requires
        valid_cells(cells),
        cells.len() < usize::MAX,
        gate.fits(cells),
    ensures
        valid_cells(append_cells(cells, gate)),
        valid_cells(with_witness(cells)),
{
    lemma_ordered_cells_bounds(cells);
    if append_result(cells, gate) is Ok {
        let after = append_cells(cells, gate);
        lemma_push_keeps_valid(cells, after[cells.len() as int]);
    }
    lemma_push_keeps_valid(cells, with_witness(cells)[cells.len() as int]);
}

/// A list stays valid when a cell is pushed that is in order at the end and
/// that is no gate of the list.
pub proof fn lemma_push_keeps_valid(cells: Seq<Cell>, cell: Cell)
    requires
        valid_cells(cells),
        cell_ok(cells.push(cell), cells.len() as int),
        cell.gate_type == CellGateType::Witness || !has_gate(cells, cell.gate_type),
    ensures
        valid_cells(cells.push(cell)),
{
    let after = cells.push(cell);
    assert forall|i: int| 0 <= i < after.len() implies cell_ok(after, i) by {
        if i < cells.len() {
            assert(cell_ok(cells, i));
        }
    }
    assert forall|i: int, j: int|
        0 <= i < j < after.len() && (#[trigger] after[i]).gate_type
            != CellGateType::Witness implies after[i].gate_type != (#[trigger] after[j]).gate_type by {
        if j < cells.len() {
            assert(cells[i].gate_type != cells[j].gate_type);
        } else {
            assert(cells[i].gate_type != cell.gate_type);
        }
    }
}

/// The gates of a list with one more cell are those of the list and the new cell's.
pub proof fn lemma_has_gate_push(cells: Seq<Cell>, cell: Cell, gate: CellGateType)
    ensures
        has_gate(cells.push(cell), gate) <==> has_gate(cells, gate) || cell.gate_type == gate,
{
    let after = cells.push(cell);
    if has_gate(cells, gate) {
        let i = choose|i: int| 0 <= i < cells.len() && (#[trigger] cells[i]).gate_type == gate;
        assert(after[i].gate_type == gate);
    }
    if cell.gate_type == gate {
        assert(after[cells.len() as int].gate_type == gate);
    }
    if has_gate(after, gate) {
        let i = choose|i: int| 0 <= i < after.len() && (#[trigger] after[i]).gate_type == gate;
        if i < cells.len() {
            assert(cells[i].gate_type == gate);
        }
    }
}

} // verus!
