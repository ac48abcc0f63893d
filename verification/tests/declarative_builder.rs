use gkr_protocol::circuit::{Circuit, CircuitLayer, Gate, GateType};
use gkr_protocol::circuit_builder::{Cell, CellGateType, CircuitBuilder};
use gkr_protocol::declarative_builder::{DeclarativeBuilder, StructuralError};

fn witness(index: usize) -> Cell {
    Cell { index, layer_id: 0, gate_type: CellGateType::Witness }
}

fn add(layer_id: usize, index: usize, l: usize, r: usize) -> Cell {
    Cell { index, layer_id, gate_type: CellGateType::Add(l, r) }
}

fn mul(layer_id: usize, index: usize, l: usize, r: usize) -> Cell {
    Cell { index, layer_id, gate_type: CellGateType::Mul(l, r) }
}

fn two_layer_cells() -> Vec<Cell> {
    vec![
        witness(0),
        witness(1),
        witness(2),
        witness(3),
        mul(1, 0, 0, 0),
        mul(1, 1, 1, 1),
        mul(1, 2, 1, 2),
        mul(1, 3, 3, 3),
        mul(2, 0, 0, 1),
        add(2, 1, 2, 3),
    ]
}

fn two_layer_circuit() -> Circuit {
    Circuit::new(
        vec![
            CircuitLayer::new(vec![
                Gate::new(GateType::Mul, [0, 1]),
                Gate::new(GateType::Add, [2, 3]),
            ]),
            CircuitLayer::new(vec![
                Gate::new(GateType::Mul, [0, 0]),
                Gate::new(GateType::Mul, [1, 1]),
                Gate::new(GateType::Mul, [1, 2]),
                Gate::new(GateType::Mul, [3, 3]),
            ]),
        ],
        4,
    )
}

#[test]
fn test_declared_circuit_is_projected() {
    let builder = DeclarativeBuilder::new(two_layer_cells(), 3, 4, 2);
    assert_eq!(builder.build(), Ok(two_layer_circuit()));
}

#[test]
fn test_declared_cells_may_come_in_any_order() {
    let mut cells = two_layer_cells();
    cells.reverse();
    cells.swap(1, 7);
    cells.swap(0, 4);
    let builder = DeclarativeBuilder::new(cells, 3, 4, 2);
    assert_eq!(builder.build(), Ok(two_layer_circuit()));
}

#[test]
fn test_declared_inputs_only() {
    let builder = DeclarativeBuilder::new(vec![witness(1), witness(0)], 1, 2, 2);
    assert_eq!(builder.build(), Ok(Circuit::new(vec![], 2)));
}

#[test]
fn test_declared_nothing() {
    let builder = DeclarativeBuilder::new(vec![], 0, 0, 0);
    assert_eq!(builder.build(), Ok(Circuit::new(vec![], 0)));
    let builder = DeclarativeBuilder::new(vec![], 0, 1, 0);
    assert_eq!(builder.build(), Err(StructuralError::CountMismatch { layer: 0 }));
    let builder = DeclarativeBuilder::new(vec![], 0, 0, 1);
    assert_eq!(builder.build(), Err(StructuralError::CountMismatch { layer: 0 }));
}

#[test]
fn test_gap_in_indices_is_refused() {
    let mut cells = two_layer_cells();
    cells[6] = mul(1, 4, 1, 2);
    let builder = DeclarativeBuilder::new(cells, 3, 4, 2);
    assert_eq!(builder.build(), Err(StructuralError::NonConsecutiveIndex { layer: 1 }));
}

#[test]
fn test_repeated_index_is_refused() {
    let mut cells = two_layer_cells();
    cells.push(add(2, 1, 0, 0));
    let builder = DeclarativeBuilder::new(cells, 3, 4, 3);
    assert_eq!(builder.build(), Err(StructuralError::NonConsecutiveIndex { layer: 2 }));
}

#[test]
fn test_same_cell_twice_is_refused() {
    let mut cells = two_layer_cells();
    cells.push(witness(2));
    let builder = DeclarativeBuilder::new(cells, 3, 5, 2);
    assert_eq!(builder.build(), Err(StructuralError::NonConsecutiveIndex { layer: 0 }));
}

#[test]
fn test_indices_not_starting_at_zero_are_refused() {
    let cells = vec![witness(1), witness(2)];
    let builder = DeclarativeBuilder::new(cells, 1, 2, 2);
    assert_eq!(builder.build(), Err(StructuralError::NonConsecutiveIndex { layer: 0 }));
}

#[test]
fn test_lowest_faulty_layer_is_named() {
    let mut cells = two_layer_cells();
    cells[9] = add(2, 5, 2, 3);
    cells[5] = mul(1, 7, 1, 1);
    let builder = DeclarativeBuilder::new(cells, 3, 4, 2);
    assert_eq!(builder.build(), Err(StructuralError::NonConsecutiveIndex { layer: 1 }));
}

#[test]
fn test_empty_layer_is_refused() {
    let cells = vec![witness(0), witness(1), add(2, 0, 0, 1)];
    let builder = DeclarativeBuilder::new(cells, 3, 2, 1);
    assert_eq!(builder.build(), Err(StructuralError::EmptyLayer { layer: 1 }));
    let builder = DeclarativeBuilder::new(vec![], 2, 0, 0);
    assert_eq!(builder.build(), Err(StructuralError::EmptyLayer { layer: 0 }));
    let builder = DeclarativeBuilder::new(two_layer_cells(), 4, 4, 2);
    assert_eq!(builder.build(), Err(StructuralError::EmptyLayer { layer: 3 }));
}

#[test]
fn test_input_count_mismatch_is_refused() {
    let builder = DeclarativeBuilder::new(two_layer_cells(), 3, 5, 2);
    assert_eq!(builder.build(), Err(StructuralError::CountMismatch { layer: 0 }));
}

#[test]
fn test_output_count_mismatch_is_refused() {
    let builder = DeclarativeBuilder::new(two_layer_cells(), 3, 4, 1);
    assert_eq!(builder.build(), Err(StructuralError::CountMismatch { layer: 2 }));
}

#[test]
fn test_input_mismatch_comes_before_output_mismatch() {
    let builder = DeclarativeBuilder::new(two_layer_cells(), 3, 3, 1);
    assert_eq!(builder.build(), Err(StructuralError::CountMismatch { layer: 0 }));
}

#[test]
fn test_witness_above_input_layer_is_refused() {
    let mut cells = two_layer_cells();
    cells[5] = Cell { index: 1, layer_id: 1, gate_type: CellGateType::Witness };
    let builder = DeclarativeBuilder::new(cells, 3, 4, 2);
    assert_eq!(builder.build(), Err(StructuralError::WitnessOutsideInputLayer { layer: 1 }));
}

#[test]
fn test_operand_out_of_range_is_refused() {
    let mut cells = two_layer_cells();
    cells[9] = add(2, 1, 2, 4);
    let builder = DeclarativeBuilder::new(cells, 3, 4, 2);
    assert_eq!(builder.build(), Err(StructuralError::OperandOutOfRange { layer: 2 }));
    let mut cells = two_layer_cells();
    cells[4] = mul(1, 0, 4, 0);
    let builder = DeclarativeBuilder::new(cells, 3, 4, 2);
    assert_eq!(builder.build(), Err(StructuralError::OperandOutOfRange { layer: 1 }));
}

#[test]
fn test_largest_operand_in_range_is_accepted() {
    let mut cells = two_layer_cells();
    cells[9] = add(2, 1, 3, 3);
    cells[7] = mul(1, 3, 3, 0);
    let builder = DeclarativeBuilder::new(cells, 3, 4, 2);
    let c = builder.build().unwrap();
    assert_eq!(c.layers()[0].gates()[1], Gate::new(GateType::Add, [3, 3]));
    assert_eq!(c.layers()[1].gates()[3], Gate::new(GateType::Mul, [3, 0]));
}

#[test]
fn test_first_fault_from_the_top_is_named() {
    let mut cells = two_layer_cells();
    // an operand out of range in the highest layer, a witness one layer below
    cells[8] = mul(2, 0, 9, 1);
    cells[4] = Cell { index: 0, layer_id: 1, gate_type: CellGateType::Witness };
    let builder = DeclarativeBuilder::new(cells, 3, 4, 2);
    assert_eq!(builder.build(), Err(StructuralError::OperandOutOfRange { layer: 2 }));
    // within one layer the cell with the lower index is found first
    let mut cells = two_layer_cells();
    cells[6] = mul(1, 2, 1, 7);
    cells[5] = Cell { index: 1, layer_id: 1, gate_type: CellGateType::Witness };
    let builder = DeclarativeBuilder::new(cells, 3, 4, 2);
    assert_eq!(builder.build(), Err(StructuralError::WitnessOutsideInputLayer { layer: 1 }));
}

#[test]
fn test_checks_are_made_in_order() {
    // a gap in layer 2, an empty layer 1 and a wrong input count: the gap is named
    let cells = vec![witness(0), add(2, 1, 0, 0)];
    let builder = DeclarativeBuilder::new(cells, 3, 7, 1);
    assert_eq!(builder.build(), Err(StructuralError::NonConsecutiveIndex { layer: 2 }));
    // an empty layer 1 and a wrong input count: the empty layer is named
    let cells = vec![witness(0), add(2, 0, 0, 0)];
    let builder = DeclarativeBuilder::new(cells, 3, 7, 1);
    assert_eq!(builder.build(), Err(StructuralError::EmptyLayer { layer: 1 }));
    // a wrong output count and an operand out of range: the count is named
    let cells = vec![witness(0), add(1, 0, 0, 5)];
    let builder = DeclarativeBuilder::new(cells, 2, 1, 3);
    assert_eq!(builder.build(), Err(StructuralError::CountMismatch { layer: 1 }));
}

#[test]
fn test_build_does_not_use_up_the_description() {
    let builder = DeclarativeBuilder::new(two_layer_cells(), 3, 4, 2);
    assert_eq!(builder.build(), builder.build());
}

#[test]
fn test_round_trip_of_a_built_circuit() {
    let mut builder = CircuitBuilder::new();
    let w0 = builder.apply_witness();
    let w1 = builder.apply_witness();
    let w2 = builder.apply_witness();
    let w3 = builder.apply_witness();
    let _w4 = builder.apply_witness();
    let v0 = builder.append_mul_gate(w0, w0).unwrap();
    let v1 = builder.append_mul_gate(w1, w1).unwrap();
    let _ = builder.append_mul_gate(w0, w2).unwrap();
    let v2 = builder.append_add_gate(w1, w2).unwrap();
    let v3 = builder.append_mul_gate(w3, w3).unwrap();
    let _ = builder.append_mul_gate(v0, v1).unwrap();
    let _ = builder.append_add_gate(v2, v3).unwrap();
    let c = builder.build_circuit();
    let again = DeclarativeBuilder::from_circuit(&c).build();
    assert_eq!(again, Ok(c));
}

#[test]
fn test_round_trip_of_small_circuits() {
    let empty = CircuitBuilder::new().build_circuit();
    assert_eq!(DeclarativeBuilder::from_circuit(&empty).build(), Ok(Circuit::new(vec![], 0)));
    let mut builder = CircuitBuilder::new();
    let w0 = builder.apply_witness();
    let inputs_only = builder.build_circuit();
    assert_eq!(DeclarativeBuilder::from_circuit(&inputs_only).build(), Ok(Circuit::new(vec![], 1)));
    let _ = builder.append_add_gate(w0, w0).unwrap();
    let one_gate = builder.build_circuit();
    assert_eq!(
        DeclarativeBuilder::from_circuit(&one_gate).build(),
        Ok(Circuit::new(vec![CircuitLayer::new(vec![Gate::new(GateType::Add, [0, 0])])], 1))
    );
}

#[test]
fn test_description_of_a_circuit_with_an_empty_layer_is_refused() {
    let c = Circuit::new(vec![CircuitLayer::new(vec![])], 2);
    assert_eq!(
        DeclarativeBuilder::from_circuit(&c).build(),
        Err(StructuralError::EmptyLayer { layer: 1 })
    );
}

#[test]
fn test_huge_layer_count_is_refused() {
    let builder = DeclarativeBuilder::new(vec![], usize::MAX, 0, 0);
    assert_eq!(builder.build(), Err(StructuralError::EmptyLayer { layer: 0 }));
    let builder = DeclarativeBuilder::new(two_layer_cells(), usize::MAX, 4, 2);
    assert_eq!(builder.build(), Err(StructuralError::EmptyLayer { layer: 3 }));
}

#[test]
fn test_cells_above_the_declared_layers_take_no_part() {
    // the layers 0 and 1 are declared; the cells of layer 2 are held to
    // consecutive indices and are otherwise left aside
    let cells = two_layer_cells();
    let builder = DeclarativeBuilder::new(cells, 2, 4, 4);
    assert_eq!(
        builder.build(),
        Ok(Circuit::new(
            vec![CircuitLayer::new(vec![
                Gate::new(GateType::Mul, [0, 0]),
                Gate::new(GateType::Mul, [1, 1]),
                Gate::new(GateType::Mul, [1, 2]),
                Gate::new(GateType::Mul, [3, 3]),
            ])],
            4
        ))
    );
    let mut cells = two_layer_cells();
    cells[9] = add(2, 3, 2, 3);
    let builder = DeclarativeBuilder::new(cells, 2, 4, 4);
    assert_eq!(builder.build(), Err(StructuralError::NonConsecutiveIndex { layer: 2 }));
    // beyond a layer without cells, too
    let mut cells = two_layer_cells();
    cells.push(add(7, 1, 0, 0));
    let builder = DeclarativeBuilder::new(cells, 3, 4, 2);
    assert_eq!(builder.build(), Err(StructuralError::NonConsecutiveIndex { layer: 7 }));
}
