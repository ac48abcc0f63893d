use gkr_protocol::circuit::{Circuit, CircuitLayer, Gate, GateType};
use gkr_protocol::circuit_builder::{BuildError, Cell, CellGateType, CircuitBuilder};

//normal circuit check
#[test]
fn test_circuit_build() {
    let mut builder = CircuitBuilder::new();
    let w0 = builder.apply_witness();
    let w1 = builder.apply_witness();
    let w2 = builder.apply_witness();
    let w3 = builder.apply_witness();
    let v0 = builder.append_mul_gate(w0, w0).unwrap();
    let v1 = builder.append_mul_gate(w1, w1).unwrap();
    let v2 = builder.append_mul_gate(w1, w2).unwrap();
    let v3 = builder.append_mul_gate(w3, w3).unwrap();
    let _ = builder.append_mul_gate(v0, v1);
    let _ = builder.append_mul_gate(v2, v3);

    let c = builder.build_circuit();
    let c0 = Circuit::new(
        vec![
            CircuitLayer::new(vec![
                Gate::new(GateType::Mul, [0, 1]),
                Gate::new(GateType::Mul, [2, 3]),
            ]),
            CircuitLayer::new(vec![
                Gate::new(GateType::Mul, [0, 0]),
                Gate::new(GateType::Mul, [1, 1]),
                Gate::new(GateType::Mul, [1, 2]),
                Gate::new(GateType::Mul, [3, 3]),
            ]),
        ],
        4,
    );
    assert_eq!(c, c0);
}

//change cell order and gate type
#[test]
fn test_circuit_build2() {
    let mut builder = CircuitBuilder::new();
    let w0 = builder.apply_witness();
    let v0 = builder.append_add_gate(w0, w0).unwrap();
    let w1 = builder.apply_witness();
    let v1 = builder.append_add_gate(w1, w1).unwrap();
    let _ = builder.append_mul_gate(v0, v1);
    let w2 = builder.apply_witness();
    let v2 = builder.append_mul_gate(w1, w2).unwrap();
    let w3 = builder.apply_witness();
    let v3 = builder.append_add_gate(w3, w3).unwrap();
    let _ = builder.append_add_gate(v2, v3);

    let c = builder.build_circuit();
    let c0 = Circuit::new(
        vec![
            CircuitLayer::new(vec![
                Gate::new(GateType::Mul, [0, 1]),
                Gate::new(GateType::Add, [2, 3]),
            ]),
            CircuitLayer::new(vec![
                Gate::new(GateType::Add, [0, 0]),
                Gate::new(GateType::Add, [1, 1]),
                Gate::new(GateType::Mul, [1, 2]),
                Gate::new(GateType::Add, [3, 3]),
            ]),
        ],
        4,
    );
    assert_eq!(c, c0);
}

//Some cells not contribute to outputs will be ignore
#[test]
fn test_circuit_build3() {
    let mut builder = CircuitBuilder::new();
    let w0 = builder.apply_witness();
    let w1 = builder.apply_witness();
    let w2 = builder.apply_witness();
    let w3 = builder.apply_witness();
    let w4 = builder.apply_witness(); //ignored
    let v0 = builder.append_mul_gate(w0, w0).unwrap();
    let v1 = builder.append_mul_gate(w1, w1).unwrap();
    let _v1_1 = builder.append_mul_gate(w0, w2).unwrap(); //ignored
    let v2 = builder.append_mul_gate(w1, w2).unwrap();
    let v3 = builder.append_mul_gate(w3, w3).unwrap();
    let _ = builder.append_mul_gate(v0, v1);
    let _v5 = builder.append_mul_gate(w1, w4).unwrap(); //ignored
    let _ = builder.append_mul_gate(v2, v3);

    let c = builder.build_circuit();
    let c0 = Circuit::new(
        vec![
            CircuitLayer::new(vec![
                Gate::new(GateType::Mul, [0, 1]),
                Gate::new(GateType::Mul, [2, 3]),
            ]),
            CircuitLayer::new(vec![
                Gate::new(GateType::Mul, [0, 0]),
                Gate::new(GateType::Mul, [1, 1]),
                Gate::new(GateType::Mul, [1, 2]),
                Gate::new(GateType::Mul, [3, 3]),
            ]),
        ],
        4,
    );
    assert_eq!(c, c0);
}

//error check
#[test]
fn test_circuit_build_error1() {
    let mut builder = CircuitBuilder::new();
    let w0 = builder.apply_witness();
    let w1 = builder.apply_witness();
    let w2 = builder.apply_witness();
    let w3 = builder.apply_witness();
    let v0 = builder.append_mul_gate(w0, w0).unwrap();
    let v1 = builder.append_mul_gate(w1, w1).unwrap();
    let v2 = builder.append_mul_gate(w1, w2).unwrap();
    let v3 = builder.append_mul_gate(w3, w3).unwrap();
    let _ = builder.append_mul_gate(v0, v1);
    let _ = builder.append_mul_gate(v2, v3);
    let err = builder.append_mul_gate(w0, w0).unwrap_err();
    assert_eq!(err, BuildError::DuplicateGate);
}

//error check
#[test]
fn test_circuit_build_error2() {
    let mut builder = CircuitBuilder::new();
    let w0 = builder.apply_witness();
    let w1 = builder.apply_witness();
    let w2 = builder.apply_witness();
    let w3 = builder.apply_witness();
    let v0 = builder.append_mul_gate(w0, w0).unwrap();
    let v1 = builder.append_mul_gate(w1, w1).unwrap();
    let v2 = builder.append_mul_gate(w1, w2).unwrap();
    let v3 = builder.append_mul_gate(w3, w3).unwrap();
    let _ = builder.append_mul_gate(v0, v1);
    let _ = builder.append_mul_gate(v2, v3);
    let err = builder.append_mul_gate(w2, v3).unwrap_err();
    assert_eq!(err, BuildError::IllegalGate);
}

fn gate_type_of(cell: &Cell) -> CellGateType {
    cell.gate_type
}

#[test]
fn test_empty_builder_gives_empty_circuit() {
    let builder = CircuitBuilder::new();
    assert_eq!(builder.n_layer(), 0);
    assert_eq!(builder.n_input(), 0);
    assert_eq!(builder.cells().len(), 0);
    let c = builder.build_circuit();
    assert_eq!(c, Circuit::new(vec![], 0));
    assert_eq!(c.num_layers(), 0);
    assert_eq!(c.num_inputs(), 0);
}

#[test]
fn test_witnesses_only() {
    let mut builder = CircuitBuilder::new();
    assert_eq!(builder.apply_witness(), 0);
    assert_eq!(builder.apply_witness(), 1);
    assert_eq!(builder.apply_witness(), 2);
    assert_eq!(builder.n_layer(), 1);
    assert_eq!(builder.n_input(), 3);
    let c = builder.build_circuit();
    assert_eq!(c, Circuit::new(vec![], 3));
}

#[test]
fn test_cells_record_index_layer_and_operation() {
    let mut builder = CircuitBuilder::new();
    let w0 = builder.apply_witness();
    let w1 = builder.apply_witness();
    let v0 = builder.append_add_gate(w0, w1).unwrap();
    let v1 = builder.append_mul_gate(w1, w0).unwrap();
    let u0 = builder.append_mul_gate(v0, v1).unwrap();
    assert_eq!((w0, w1, v0, v1, u0), (0, 1, 2, 3, 4));
    let cells = builder.cells();
    assert_eq!(cells.len(), 5);
    for (i, cell) in cells.iter().enumerate() {
        assert_eq!(cell.index, i);
    }
    assert_eq!(cells[0].layer_id, 0);
    assert_eq!(cells[1].layer_id, 0);
    assert_eq!(cells[2].layer_id, 1);
    assert_eq!(cells[3].layer_id, 1);
    assert_eq!(cells[4].layer_id, 2);
    assert_eq!(gate_type_of(&cells[0]), CellGateType::Witness);
    assert_eq!(gate_type_of(&cells[2]), CellGateType::Add(0, 1));
    assert_eq!(gate_type_of(&cells[3]), CellGateType::Mul(1, 0));
    assert_eq!(gate_type_of(&cells[4]), CellGateType::Mul(2, 3));
    assert_eq!(builder.n_layer(), 3);
    assert_eq!(builder.n_input(), 2);
}

#[test]
fn test_duplicate_gate_is_refused() {
    let mut builder = CircuitBuilder::new();
    let a = builder.apply_witness();
    let b = builder.apply_witness();
    assert_eq!(builder.append_add_gate(a, b), Ok(2));
    let before = builder.cells().len();
    assert_eq!(builder.append_add_gate(a, b), Err(BuildError::DuplicateGate));
    assert_eq!(builder.cells().len(), before);
    assert_eq!(builder.n_layer(), 2);
}

#[test]
fn test_operand_order_matters_for_duplicates() {
    let mut builder = CircuitBuilder::new();
    let a = builder.apply_witness();
    let b = builder.apply_witness();
    assert_eq!(builder.append_add_gate(a, b), Ok(2));
    assert_eq!(builder.append_add_gate(b, a), Ok(3));
    assert_eq!(builder.append_mul_gate(a, b), Ok(4));
    assert_eq!(builder.append_mul_gate(b, a), Ok(5));
    assert_eq!(builder.append_mul_gate(b, a), Err(BuildError::DuplicateGate));
    assert_eq!(builder.append_add_gate(b, a), Err(BuildError::DuplicateGate));
}

#[test]
fn test_add_and_mul_on_same_operands_are_different_gates() {
    let mut builder = CircuitBuilder::new();
    let a = builder.apply_witness();
    assert_eq!(builder.append_add_gate(a, a), Ok(1));
    assert_eq!(builder.append_mul_gate(a, a), Ok(2));
    assert_eq!(builder.append_add_gate(a, a), Err(BuildError::DuplicateGate));
    assert_eq!(builder.append_mul_gate(a, a), Err(BuildError::DuplicateGate));
}

#[test]
fn test_cross_layer_gate_is_refused_and_changes_nothing() {
    let mut builder = CircuitBuilder::new();
    let w0 = builder.apply_witness();
    let w1 = builder.apply_witness();
    let v0 = builder.append_mul_gate(w0, w1).unwrap();
    let before = builder.cells().len();
    let circuit_before = builder.build_circuit();
    assert_eq!(builder.append_add_gate(w0, v0), Err(BuildError::IllegalGate));
    assert_eq!(builder.append_mul_gate(v0, w1), Err(BuildError::IllegalGate));
    assert_eq!(builder.cells().len(), before);
    assert_eq!(builder.n_layer(), 2);
    assert_eq!(builder.n_input(), 2);
    assert_eq!(builder.build_circuit(), circuit_before);
    // the refused gate can be offered again, and different operands are accepted
    assert_eq!(builder.append_add_gate(w0, v0), Err(BuildError::IllegalGate));
    assert_eq!(builder.append_add_gate(w0, w1), Ok(3));
}

#[test]
fn test_build_twice_gives_equal_circuits() {
    let mut builder = CircuitBuilder::new();
    let w0 = builder.apply_witness();
    let w1 = builder.apply_witness();
    let v0 = builder.append_add_gate(w0, w1).unwrap();
    let v1 = builder.append_mul_gate(w1, w1).unwrap();
    let _ = builder.append_mul_gate(v0, v1).unwrap();
    let first = builder.build_circuit();
    let second = builder.build_circuit();
    assert_eq!(first, second);
}

#[test]
fn test_builder_can_grow_after_build() {
    let mut builder = CircuitBuilder::new();
    let w0 = builder.apply_witness();
    let w1 = builder.apply_witness();
    let v0 = builder.append_add_gate(w0, w1).unwrap();
    let first = builder.build_circuit();
    assert_eq!(
        first,
        Circuit::new(vec![CircuitLayer::new(vec![Gate::new(GateType::Add, [0, 1])])], 2)
    );
    let v1 = builder.append_mul_gate(w0, w0).unwrap();
    let _ = builder.append_mul_gate(v1, v0).unwrap();
    let second = builder.build_circuit();
    assert_eq!(
        second,
        Circuit::new(
            vec![
                CircuitLayer::new(vec![Gate::new(GateType::Mul, [1, 0])]),
                CircuitLayer::new(vec![
                    Gate::new(GateType::Add, [0, 1]),
                    Gate::new(GateType::Mul, [0, 0]),
                ]),
            ],
            2
        )
    );
}

#[test]
fn test_operands_are_renumbered_in_creation_order() {
    // the operands are met in the order 3, 0, 2: their positions follow the
    // creation order 0, 2, 3, and the witness 1 is left out
    let mut builder = CircuitBuilder::new();
    let w0 = builder.apply_witness();
    let _w1 = builder.apply_witness();
    let w2 = builder.apply_witness();
    let w3 = builder.apply_witness();
    let _ = builder.append_mul_gate(w3, w0).unwrap();
    let _ = builder.append_add_gate(w2, w3).unwrap();
    let c = builder.build_circuit();
    assert_eq!(
        c,
        Circuit::new(
            vec![CircuitLayer::new(vec![
                Gate::new(GateType::Mul, [2, 0]),
                Gate::new(GateType::Add, [1, 2]),
            ])],
            3
        )
    );
}

#[test]
fn test_unused_cells_do_not_change_the_circuit() {
    let mut plain = CircuitBuilder::new();
    let w0 = plain.apply_witness();
    let w1 = plain.apply_witness();
    let v0 = plain.append_add_gate(w0, w1).unwrap();
    let v1 = plain.append_mul_gate(w0, w1).unwrap();
    let _ = plain.append_mul_gate(v0, v1).unwrap();

    let mut pruned = CircuitBuilder::new();
    let x = pruned.apply_witness(); // unused
    let w0 = pruned.apply_witness();
    let _y = pruned.append_mul_gate(x, x).unwrap(); // unused
    let w1 = pruned.apply_witness();
    let v0 = pruned.append_add_gate(w0, w1).unwrap();
    let v1 = pruned.append_mul_gate(w0, w1).unwrap();
    let _ = pruned.apply_witness(); // unused
    let _ = pruned.append_mul_gate(v0, v1).unwrap();
    assert_eq!(pruned.build_circuit(), plain.build_circuit());
    assert_eq!(
        pruned.build_circuit(),
        Circuit::new(
            vec![
                CircuitLayer::new(vec![Gate::new(GateType::Mul, [0, 1])]),
                CircuitLayer::new(vec![
                    Gate::new(GateType::Add, [0, 1]),
                    Gate::new(GateType::Mul, [0, 1]),
                ]),
            ],
            2
        )
    );
}

#[test]
fn test_every_cell_of_the_highest_layer_is_an_output() {
    let mut builder = CircuitBuilder::new();
    let w0 = builder.apply_witness();
    let w1 = builder.apply_witness();
    let w2 = builder.apply_witness();
    let _ = builder.append_add_gate(w0, w0).unwrap();
    let _ = builder.append_mul_gate(w2, w1).unwrap();
    let _ = builder.append_add_gate(w1, w1).unwrap();
    let c = builder.build_circuit();
    assert_eq!(
        c,
        Circuit::new(
            vec![CircuitLayer::new(vec![
                Gate::new(GateType::Add, [0, 0]),
                Gate::new(GateType::Mul, [2, 1]),
                Gate::new(GateType::Add, [1, 1]),
            ])],
            3
        )
    );
}

#[test]
fn test_operands_of_built_circuit_are_in_range() {
    let mut builder = CircuitBuilder::new();
    let mut layer: Vec<usize> = (0..6).map(|_| builder.apply_witness()).collect();
    let _unused = builder.apply_witness();
    while layer.len() > 1 {
        let mut next = Vec::new();
        for pair in layer.chunks(2) {
            if pair.len() == 2 {
                next.push(builder.append_mul_gate(pair[1], pair[0]).unwrap());
            } else {
                next.push(builder.append_add_gate(pair[0], pair[0]).unwrap());
            }
        }
        layer = next;
    }
    let c = builder.build_circuit();
    assert_eq!(c.num_layers(), 3);
    assert_eq!(c.num_inputs(), 6);
    let layers = c.layers();
    for i in 0..layers.len() {
        let below = if i + 1 < layers.len() { layers[i + 1].len() } else { c.num_inputs() };
        for gate in layers[i].gates() {
            assert!(gate.left < below);
            assert!(gate.right < below);
            assert_eq!(gate.inputs(), [gate.left, gate.right]);
        }
    }
    assert_eq!(layers[0].len(), 1);
    assert_eq!(layers[1].len(), 2);
    assert_eq!(layers[2].len(), 3);
}

#[test]
fn test_circuit_clone_is_equal() {
    let mut builder = CircuitBuilder::new();
    let w0 = builder.apply_witness();
    let w1 = builder.apply_witness();
    let _ = builder.append_mul_gate(w1, w0).unwrap();
    let c = builder.build_circuit();
    let copy = c.clone();
    assert_eq!(copy, c);
    assert_eq!(copy.layers()[0].clone(), CircuitLayer::new(vec![Gate::new(GateType::Mul, [1, 0])]));
    assert_eq!(copy.num_inputs(), 2);
}
