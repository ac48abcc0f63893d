//! What a builder's cell list means as a layered circuit.
//!
//! The outputs are the cells of the highest layer. A cell is kept when an
//! output depends on it; the kept cells of one layer, in creation order,
//! form one layer of the circuit, and a gate names its operands by their
//! positions in that order.
use vstd::prelude::*;
use crate::circuit::{CircuitView, Gate, GateType};
use crate::cell_list::{cell_ok, layer_count, lemma_layer_count_bounds, valid_cells};
use crate::circuit_builder::{Cell, CellGateType};

verus! {

/// The cells kept at distance `d` from the output layer: at distance 0 all
/// cells of the highest layer, and further down the operands of the gates
/// kept one step above.
pub open spec fn kept(cells: Seq<Cell>, d: nat) -> Set<int>
    decreases d,
{
    if d == 0 {
        Set::new(
            |i: int| 0 <= i < cells.len() && cells[i].layer_id + 1 == layer_count(cells),
        )
    } else {
        let above = kept(cells, (d - 1) as nat);
        Set::new(
            |i: int|
                exists|j: int|
                    0 <= j < cells.len() && above.contains(j) && (#[trigger] cells[j]).gate_type.reads(i),
        )
    }
}

/// The members of `s` in `[0, n)`, in increasing order.
pub open spec fn members_below(s: Set<int>, n: int) -> Seq<int>
    decreases n,
{
    if n <= 0 {
        Seq::empty()
    } else if s.contains(n - 1) {
        members_below(s, n - 1).push(n - 1)
    } else {
        members_below(s, n - 1)
    }
}

/// The number of members of `s` in `[0, i)`: the position of `i` among the
/// members of `s`, where `i` is one.
pub open spec fn rank(s: Set<int>, i: int) -> nat {
    members_below(s, i).len()
}

/// The kept cells at distance `d` from the output layer, in creation order.
pub open spec fn layer_members(cells: Seq<Cell>, d: nat) -> Seq<int> {
    members_below(kept(cells, d), cells.len() as int)
}

/// What the cell `c`, kept at distance `d`, becomes in the circuit: its
/// operands are renumbered to their positions among the cells kept at distance `d + 1`.
pub open spec fn gate_at(cells: Seq<Cell>, d: nat, c: int) -> Gate {
    let below = kept(cells, d + 1);
    match cells[c].gate_type {
        CellGateType::Add(l, r) => Gate {
            ty: GateType::Add,
            left: rank(below, l as int) as usize,
            right: rank(below, r as int) as usize,
        },
        CellGateType::Mul(l, r) => Gate {
            ty: GateType::Mul,
            left: rank(below, l as int) as usize,
            right: rank(below, r as int) as usize,
        },
        CellGateType::Witness => Gate { ty: GateType::Add, left: 0, right: 0 },
    }
}

/// The layer of the circuit at distance `d` from the outputs.
pub open spec fn layer_gates(cells: Seq<Cell>, d: nat) -> Seq<Gate> {
    let members = layer_members(cells, d);
    Seq::new(members.len(), |k: int| gate_at(cells, d, members[k]))
}

/// The circuit that a cell list stands for: one layer of gates for each
/// layer id above 0, the highest first, and as inputs the kept witnesses.
pub open spec fn built_circuit(cells: Seq<Cell>) -> CircuitView {
    let n = layer_count(cells);
    if n == 0 {
        CircuitView { layers: Seq::empty(), num_inputs: 0 }
    } else {
        CircuitView {
            layers: Seq::new((n - 1) as nat, |d: int| layer_gates(cells, d as nat)),
            num_inputs: layer_members(cells, (n - 1) as nat).len(),
        }
    }
}

/// The indices of `v` as mathematical integers.
pub open spec fn ints(v: Seq<usize>) -> Seq<int> {
    Seq::new(v.len(), |k: int| v[k] as int)
}

/// A cell kept at distance `d` from the output layer lies `d` layers below
/// the highest layer.
pub proof fn lemma_kept_layer(cells: Seq<Cell>, d: nat)
    requires
        valid_cells(cells),
    ensures
        forall|i: int| #[trigger]
            kept(cells, d).contains(i) ==> 0 <= i < cells.len() && cells[i].layer_id + d + 1
                == layer_count(cells),
    decreases d,
{
    if d > 0 {
        let above = kept(cells, (d - 1) as nat);
        lemma_kept_layer(cells, (d - 1) as nat);
        assert forall|i: int| #[trigger] kept(cells, d).contains(i) implies 0 <= i < cells.len()
            && cells[i].layer_id + d + 1 == layer_count(cells) by {
            let j = choose|j: int|
                0 <= j < cells.len() && above.contains(j) && (#[trigger] cells[j]).gate_type.reads(
                    i,
                );
            assert(cell_ok(cells, j));
        }
    }
}

/// A cell kept above the lowest layer is a gate, and its two operands are
/// kept one step further from the outputs.
pub proof fn lemma_kept_operands(cells: Seq<Cell>, d: nat, c: int)
    requires
        valid_cells(cells),
        kept(cells, d).contains(c),
        d + 1 < layer_count(cells),
    ensures
        cells[c].gate_type.spec_operands() is Some,
        kept(cells, d + 1).contains(cells[c].gate_type.spec_operands().unwrap().0),
        kept(cells, d + 1).contains(cells[c].gate_type.spec_operands().unwrap().1),
        0 <= cells[c].gate_type.spec_operands().unwrap().0 < c,
        0 <= cells[c].gate_type.spec_operands().unwrap().1 < c,
{
    lemma_kept_layer(cells, d);
    assert(cell_ok(cells, c));
    let (l, r) = cells[c].gate_type.spec_operands().unwrap();
    assert(cells[c].gate_type.reads(l));
    assert(cells[c].gate_type.reads(r));
}

/// The circuit that a valid cell list stands for is well formed: every
/// operand of every gate is a position of the layer below it.
pub proof fn lemma_built_circuit_well_formed(cells: Seq<Cell>)
    requires
        valid_cells(cells),
    ensures
        built_circuit(cells).well_formed(),
{
    let circuit = built_circuit(cells);
    let n = cells.len() as int;
    assert forall|i: int, k: int|
        0 <= i < circuit.layers.len() && 0 <= k < circuit.layers[i].len() implies {
        &&& (#[trigger] circuit.layers[i][k]).left < circuit.width_below(i)
        &&& circuit.layers[i][k].right < circuit.width_below(i)
    } by {
        let d = i as nat;
        let below = kept(cells, d + 1);
        lemma_members_below(kept(cells, d), n);
        let c = layer_members(cells, d)[k];
        lemma_kept_operands(cells, d, c);
        let (l, r) = cells[c].gate_type.spec_operands().unwrap();
        lemma_rank_position(below, l, n);
        lemma_rank_position(below, r, n);
        lemma_members_below(below, n);
        assert(circuit.width_below(i) == layer_members(cells, d + 1).len());
        assert(circuit.layers[i][k] == gate_at(cells, d, c));
    }
}

/// The members of `s` below `n` are in `s` and in range, each once and in
/// increasing order, and none is left out.
pub proof fn lemma_members_below(s: Set<int>, n: int)
    ensures
        members_below(s, n).len() <= if n < 0 { 0 } else { n },
        forall|k: int|
            0 <= k < members_below(s, n).len() ==> {
                &&& 0 <= (#[trigger] members_below(s, n)[k]) < n
                &&& s.contains(members_below(s, n)[k])
            },
        forall|k: int, m: int|
            0 <= k < m < members_below(s, n).len() ==> members_below(s, n)[k] < members_below(
                s,
                n,
            )[m],
        forall|x: int| 0 <= x < n && s.contains(x) ==> members_below(s, n).contains(x),
    decreases n,
{
    if n > 0 {
        lemma_members_below(s, n - 1);
        let prev = members_below(s, n - 1);
        let cur = members_below(s, n);
        assert forall|x: int| 0 <= x < n && s.contains(x) implies cur.contains(x) by {
            if x < n - 1 {
                let k = choose|k: int| 0 <= k < prev.len() && prev[k] == x;
                assert(cur[k] == x);
            } else {
                assert(cur[cur.len() - 1] == x);
            }
        }
    }
}

/// A member of `s` stands among the members below any later bound at the
/// position that its rank gives.
pub proof fn lemma_rank_position(s: Set<int>, x: int, n: int)
    requires
        0 <= x < n,
        s.contains(x),
    ensures
        rank(s, x) < members_below(s, n).len(),
        members_below(s, n)[rank(s, x) as int] == x,
    decreases n,
{
    if x < n - 1 {
        lemma_rank_position(s, x, n - 1);
    }
}

/// An increasing sequence that holds exactly the members of `s` in `[0, n)`
/// is the sequence of those members.
pub proof fn lemma_members_below_unique(s: Set<int>, n: int, q: Seq<int>)
    requires
        forall|k: int, m: int| 0 <= k < m < q.len() ==> q[k] < q[m],
        forall|k: int| 0 <= k < q.len() ==> 0 <= (#[trigger] q[k]) < n && s.contains(q[k]),
        forall|x: int| 0 <= x < n && s.contains(x) ==> q.contains(x),
    ensures
        q == members_below(s, n),
    decreases n,
{
    if n <= 0 {
        if q.len() > 0 {
            assert(0 <= q[0] < n);
        }
        assert(q =~= Seq::empty());
    } else if s.contains(n - 1) {
        assert(q.contains(n - 1));
        let k = choose|k: int| 0 <= k < q.len() && q[k] == n - 1;
        if k < q.len() - 1 {
            assert(q[k] < q[q.len() - 1]);
        }
        let front = q.drop_last();
        assert forall|x: int| 0 <= x < n - 1 && s.contains(x) implies front.contains(x) by {
            let m = choose|m: int| 0 <= m < q.len() && q[m] == x;
            assert(front[m] == x);
        }
        assert forall|m: int| 0 <= m < front.len() implies 0 <= (#[trigger] front[m]) < n - 1
            && s.contains(front[m]) by {
            assert(q[m] < q[k]);
        }
        lemma_members_below_unique(s, n - 1, front);
        assert(q =~= front.push(n - 1));
    } else {
        assert forall|x: int| 0 <= x < n - 1 && s.contains(x) implies q.contains(x) by {}
        lemma_members_below_unique(s, n - 1, q);
    }
}

/// The cell `k` of `b` and the cell `at[k]` of `a` agree in layer and in
/// operation, and the operands of the second are those of the first, each
/// at the index that `at` gives it.
pub open spec fn same_cell(a: Seq<Cell>, b: Seq<Cell>, at: Seq<int>, k: int) -> bool {
    let mine = b[k];
    let theirs = a[at[k]];
    &&& theirs.layer_id == mine.layer_id
    &&& match mine.gate_type {
        CellGateType::Add(l, r) => theirs.gate_type == CellGateType::Add(
            at[l as int] as usize,
            at[r as int] as usize,
        ),
        CellGateType::Mul(l, r) => theirs.gate_type == CellGateType::Mul(
            at[l as int] as usize,
            at[r as int] as usize,
        ),
        CellGateType::Witness => theirs.gate_type == CellGateType::Witness,
    }
}

/// `a` is `b` with further cells put in that are no outputs: the cells of
/// `b` stand in `a` in the same order, the cell `k` at the index `at[k]`,
/// and every cell of the highest layer of `a` is one of them.
pub open spec fn extends_below_outputs(a: Seq<Cell>, b: Seq<Cell>, at: Seq<int>) -> bool {
    &&& at.len() == b.len()
    &&& forall|k: int| 0 <= k < b.len() ==> 0 <= #[trigger] at[k] < a.len()
    &&& forall|k: int, m: int| 0 <= k < m < b.len() ==> at[k] < at[m]
    &&& forall|k: int| 0 <= k < b.len() ==> #[trigger] same_cell(a, b, at, k)
    &&& forall|i: int|
        0 <= i < a.len() && (#[trigger] a[i]).layer_id + 1 == layer_count(a) ==> at.contains(i)
}

/// The layer count is the one number above all layer ids that a cell reaches.
pub proof fn lemma_layer_count_is(cells: Seq<Cell>, n: nat)
    requires
        forall|i: int| 0 <= i < cells.len() ==> (#[trigger] cells[i]).layer_id < n,
        cells.len() > 0 ==> exists|i: int|
            0 <= i < cells.len() && (#[trigger] cells[i]).layer_id + 1 == n,
        cells.len() == 0 ==> n == 0,
    ensures
        layer_count(cells) == n,
{
    lemma_layer_count_bounds(cells);
    if cells.len() > 0 {
        let i = choose|i: int| 0 <= i < cells.len() && (#[trigger] cells[i]).layer_id + 1 == n;
        let j = choose|j: int|
            0 <= j < cells.len() && (#[trigger] cells[j]).layer_id + 1 == layer_count(cells);
        assert(cells[i].layer_id < layer_count(cells));
        assert(cells[j].layer_id < n);
    }
}

/// Further cells below the outputs leave the layer count as it is.
proof fn lemma_extension_layer_count(a: Seq<Cell>, b: Seq<Cell>, at: Seq<int>)
    requires
        extends_below_outputs(a, b, at),
    ensures
        layer_count(a) == layer_count(b),
{
    lemma_layer_count_bounds(a);
    let n = layer_count(a);
    assert forall|k: int| 0 <= k < b.len() implies (#[trigger] b[k]).layer_id < n by {
        assert(same_cell(a, b, at, k));
        assert(a[at[k]].layer_id < n);
    }
    if a.len() > 0 {
        let i = choose|i: int| 0 <= i < a.len() && (#[trigger] a[i]).layer_id + 1 == n;
        assert(at.contains(i));
        let k = choose|k: int| 0 <= k < at.len() && at[k] == i;
        assert(same_cell(a, b, at, k));
        assert(b[k].layer_id + 1 == n);
    } else if b.len() > 0 {
        assert(0 <= at[0] < a.len());
    }
    lemma_layer_count_is(b, n);
}

/// At every distance from the outputs, the cells kept in `a` are the
/// cells kept in `b`, each at the index that `at` gives it.
proof fn lemma_extension_kept(a: Seq<Cell>, b: Seq<Cell>, at: Seq<int>, d: nat)
    requires
        valid_cells(a),
        valid_cells(b),
        extends_below_outputs(a, b, at),
    ensures
        forall|k: int| #[trigger] kept(b, d).contains(k) ==> kept(a, d).contains(at[k]),
        forall|i: int| #[trigger]
            kept(a, d).contains(i) ==> exists|k: int|
                0 <= k < b.len() && #[trigger] at[k] == i && kept(b, d).contains(k),
    decreases d,
{
    lemma_extension_layer_count(a, b, at);
    lemma_kept_layer(a, d);
    lemma_kept_layer(b, d);
    if d == 0 {
        assert forall|k: int| #[trigger] kept(b, d).contains(k) implies kept(a, d).contains(
            at[k],
        ) by {
            assert(same_cell(a, b, at, k));
        }
        assert forall|i: int| #[trigger] kept(a, d).contains(i) implies exists|k: int|
            0 <= k < b.len() && #[trigger] at[k] == i && kept(b, d).contains(k) by {
            assert(at.contains(i));
            let k = choose|k: int| 0 <= k < at.len() && at[k] == i;
            assert(same_cell(a, b, at, k));
        }
    } else {
        let up = (d - 1) as nat;
        lemma_extension_kept(a, b, at, up);
        lemma_kept_layer(a, up);
        lemma_kept_layer(b, up);
        assert forall|k: int| #[trigger] kept(b, d).contains(k) implies kept(a, d).contains(
            at[k],
        ) by {
            let j = choose|j: int|
                0 <= j < b.len() && kept(b, up).contains(j) && (#[trigger] b[j]).gate_type.reads(k);
            assert(same_cell(a, b, at, j));
            assert(cell_ok(b, j));
            assert(cell_ok(a, at[k]));
            assert(kept(a, up).contains(at[j]));
            assert(a[at[j]].gate_type.reads(at[k]));
        }
        assert forall|i: int| #[trigger] kept(a, d).contains(i) implies exists|k: int|
            0 <= k < b.len() && #[trigger] at[k] == i && kept(b, d).contains(k) by {
            let c = choose|c: int|
                0 <= c < a.len() && kept(a, up).contains(c) && (#[trigger] a[c]).gate_type.reads(i);
            let j = choose|j: int| 0 <= j < b.len() && #[trigger] at[j] == c && kept(b, up).contains(j);
            assert(same_cell(a, b, at, j));
            assert(cell_ok(b, j));
            let (l, r) = b[j].gate_type.spec_operands().unwrap();
            assert(b[j].gate_type.reads(l));
            assert(b[j].gate_type.reads(r));
            assert(cell_ok(a, at[l]));
            assert(cell_ok(a, at[r]));
            if at[l] == i {
                assert(kept(b, d).contains(l));
            } else {
                assert(at[r] == i);
                assert(kept(b, d).contains(r));
            }
        }
    }
}

/// At every distance from the outputs, the two lists keep equally many
/// cells, in the same order and with the same ranks.
proof fn lemma_extension_members(a: Seq<Cell>, b: Seq<Cell>, at: Seq<int>, d: nat)
    requires
        valid_cells(a),
        valid_cells(b),
        extends_below_outputs(a, b, at),
    ensures
        layer_members(a, d).len() == layer_members(b, d).len(),
        forall|p: int|
            0 <= p < layer_members(b, d).len() ==> #[trigger] layer_members(a, d)[p]
                == at[layer_members(b, d)[p]],
        forall|x: int| #[trigger]
            kept(b, d).contains(x) ==> rank(kept(a, d), at[x]) == rank(kept(b, d), x),
{
    let theirs = layer_members(b, d);
    let q = Seq::new(theirs.len(), |p: int| at[theirs[p]]);
    lemma_extension_kept(a, b, at, d);
    lemma_kept_layer(a, d);
    lemma_kept_layer(b, d);
    lemma_members_below(kept(b, d), b.len() as int);
    lemma_members_below(kept(a, d), a.len() as int);
    assert forall|x: int| 0 <= x < a.len() && kept(a, d).contains(x) implies q.contains(x) by {
        let k = choose|k: int| 0 <= k < b.len() && #[trigger] at[k] == x && kept(b, d).contains(k);
        assert(theirs.contains(k));
        let p = choose|p: int| 0 <= p < theirs.len() && theirs[p] == k;
        assert(q[p] == x);
    }
    lemma_members_below_unique(kept(a, d), a.len() as int, q);
    assert forall|x: int| #[trigger] kept(b, d).contains(x) implies rank(kept(a, d), at[x])
        == rank(kept(b, d), x) by {
        lemma_rank_position(kept(b, d), x, b.len() as int);
        lemma_rank_position(kept(a, d), at[x], a.len() as int);
        let p = rank(kept(b, d), x) as int;
        let p2 = rank(kept(a, d), at[x]) as int;
        assert(q[p] == at[x]);
        assert(q[p2] == at[x]);
        if p < p2 {
            assert(q[p] < q[p2]);
        }
        if p2 < p {
            assert(q[p2] < q[p]);
        }
    }
}

/// Cells on which no output depends do not show in the circuit: where `a`
/// is `b` with further cells that are no outputs, no layer of the circuit
/// holds one of them, and the two lists give the same circuit, with the
/// same gates in every layer and the same number of inputs.
pub proof fn lemma_dead_cells_do_not_matter(a: Seq<Cell>, b: Seq<Cell>, at: Seq<int>)
    requires
        valid_cells(a),
        valid_cells(b),
        extends_below_outputs(a, b, at),
    ensures
        forall|d: nat, i: int| #[trigger] kept(a, d).contains(i) ==> at.contains(i),
        built_circuit(a) == built_circuit(b),
{
    lemma_extension_layer_count(a, b, at);
    assert forall|d: nat, i: int| #[trigger] kept(a, d).contains(i) implies at.contains(i) by {
        lemma_extension_kept(a, b, at, d);
    }
    let n = layer_count(a);
    if n > 0 {
        let mine = built_circuit(a);
        let theirs = built_circuit(b);
        lemma_extension_members(a, b, at, (n - 1) as nat);
        assert forall|i: int| 0 <= i < n - 1 implies #[trigger] mine.layers[i]
            == theirs.layers[i] by {
            let d = i as nat;
            lemma_extension_members(a, b, at, d);
            lemma_extension_members(a, b, at, d + 1);
            lemma_members_below(kept(b, d), b.len() as int);
            assert forall|p: int| 0 <= p < layer_members(b, d).len() implies gate_at(
                a,
                d,
                layer_members(a, d)[p],
            ) == gate_at(b, d, layer_members(b, d)[p]) by {
                let c = layer_members(b, d)[p];
                lemma_kept_operands(b, d, c);
                assert(same_cell(a, b, at, c));
                let (l, r) = b[c].gate_type.spec_operands().unwrap();
                assert(cell_ok(a, at[l]));
                assert(cell_ok(a, at[r]));
            }
            assert(layer_gates(a, d) =~= layer_gates(b, d));
        }
        assert(mine.layers =~= theirs.layers);
    }
}

/// A cell that is appended below the highest layer changes nothing in the
/// circuit: it is no output, and nothing reads it yet.
pub proof fn lemma_append_below_outputs(cells: Seq<Cell>, cell: Cell)
    requires
        valid_cells(cells.push(cell)),
        cell.layer_id + 1 < layer_count(cells),
    ensures
        valid_cells(cells),
        built_circuit(cells.push(cell)) == built_circuit(cells),
{
    let longer = cells.push(cell);
    let at = Seq::new(cells.len(), |k: int| k);
    assert(longer.drop_last() == cells);
    assert forall|i: int| 0 <= i < cells.len() implies cell_ok(cells, i) by {
        assert(cell_ok(longer, i));
    }
    assert forall|i: int, j: int|
        0 <= i < j < cells.len() && (#[trigger] cells[i]).gate_type
            != CellGateType::Witness implies cells[i].gate_type != (#[trigger] cells[j]).gate_type by {
        assert(longer[i].gate_type != longer[j].gate_type);
    }
    assert forall|k: int| 0 <= k < cells.len() implies #[trigger] same_cell(longer, cells, at, k) by {
        assert(cell_ok(cells, k));
    }
    assert forall|i: int|
        0 <= i < longer.len() && (#[trigger] longer[i]).layer_id + 1 == layer_count(
            longer,
        ) implies at.contains(i) by {
        assert(at[i] == i);
    }
    lemma_dead_cells_do_not_matter(longer, cells, at);
}

/// The rank grows with the bound, and by one at each member.
pub proof fn lemma_rank_monotone(s: Set<int>, i: int, j: int)
    requires
        i <= j,
    ensures
        rank(s, i) <= rank(s, j),
        s.contains(i) && i < j && 0 <= i ==> rank(s, i) < rank(s, j),
    decreases j - i,
{
    if i < j {
        lemma_rank_monotone(s, i, j - 1);
    }
}

/// The live cells: those on which some output depends.
pub open spec fn live(cells: Seq<Cell>) -> Set<int> {
    Set::new(|i: int| exists|d: nat| #[trigger] kept(cells, d).contains(i))
}

/// The live cells of the list, in creation order.
pub open spec fn live_cells(cells: Seq<Cell>) -> Seq<int> {
    members_below(live(cells), cells.len() as int)
}

/// The list without its dead cells: the live cells in creation order, each
/// with the index that it has among them, and with its operands renumbered
/// in the same way.
pub open spec fn pruned(cells: Seq<Cell>) -> Seq<Cell> {
    let at = live_cells(cells);
    Seq::new(
        at.len(),
        |k: int|
            Cell {
                index: k as usize,
                layer_id: cells[at[k]].layer_id,
                gate_type: match cells[at[k]].gate_type {
                    CellGateType::Add(l, r) => CellGateType::Add(
                        rank(live(cells), l as int) as usize,
                        rank(live(cells), r as int) as usize,
                    ),
                    CellGateType::Mul(l, r) => CellGateType::Mul(
                        rank(live(cells), l as int) as usize,
                        rank(live(cells), r as int) as usize,
                    ),
                    CellGateType::Witness => CellGateType::Witness,
                },
            },
    )
}

/// A live cell stands among the live cells at the position that its rank
/// gives, and the operands of a live gate are live and stand before it.
proof fn lemma_live_cells(cells: Seq<Cell>)
    requires
        valid_cells(cells),
    ensures
        forall|k: int|
            0 <= k < live_cells(cells).len() ==> {
                let c = #[trigger] live_cells(cells)[k];
                &&& 0 <= c < cells.len()
                &&& live(cells).contains(c)
                &&& rank(live(cells), c) == k
                &&& k <= usize::MAX
            },
        forall|k: int, m: int|
            0 <= k < m < live_cells(cells).len() ==> live_cells(cells)[k] < live_cells(cells)[m],
        forall|c: int|
            0 <= c < cells.len() && live(cells).contains(c) ==> {
                &&& rank(live(cells), c) < live_cells(cells).len()
                &&& #[trigger] live_cells(cells)[rank(live(cells), c) as int] == c
            },
        forall|c: int, x: int|
            0 <= c < cells.len() && live(cells).contains(c) && #[trigger] cells[c].gate_type.reads(x)
                ==> {
                &&& 0 <= x < c
                &&& live(cells).contains(x)
                &&& rank(live(cells), x) < rank(live(cells), c)
            },
{
    let s = live(cells);
    let n = cells.len() as int;
    let at = live_cells(cells);
    lemma_members_below(s, n);
    assert forall|c: int| 0 <= c < n && s.contains(c) implies {
        &&& rank(s, c) < at.len()
        &&& #[trigger] at[rank(s, c) as int] == c
    } by {
        lemma_rank_position(s, c, n);
    }
    assert forall|k: int| 0 <= k < at.len() implies {
        let c = #[trigger] at[k];
        &&& 0 <= c < n
        &&& s.contains(c)
        &&& rank(s, c) == k
        &&& k <= usize::MAX
    } by {
        let c = at[k];
        lemma_rank_position(s, c, n);
        let p = rank(s, c) as int;
        if p < k {
            assert(at[p] < at[k]);
        }
        if k < p {
            assert(at[k] < at[p]);
        }
        assert(cell_ok(cells, n - 1));
    }
    assert forall|c: int, x: int|
        0 <= c < n && s.contains(c) && #[trigger] cells[c].gate_type.reads(x) implies {
        &&& 0 <= x < c
        &&& s.contains(x)
        &&& rank(s, x) < rank(s, c)
    } by {
        assert(cell_ok(cells, c));
        let d = choose|d: nat| #[trigger] kept(cells, d).contains(c);
        assert(kept(cells, d + 1).contains(x));
        lemma_rank_monotone(s, x, c);
    }
}

/// Dead cells can be dropped: the list without them is a valid list that
/// holds every output, and it gives the same circuit.
pub proof fn lemma_pruned(cells: Seq<Cell>)
    requires
        valid_cells(cells),
    ensures
        valid_cells(pruned(cells)),
        forall|i: int|
            live_cells(cells).contains(i) <==> 0 <= i < cells.len() && live(cells).contains(i),
        extends_below_outputs(cells, pruned(cells), live_cells(cells)),
        built_circuit(pruned(cells)) == built_circuit(cells),
{
    let s = live(cells);
    lemma_members_below(s, cells.len() as int);
    let at = live_cells(cells);
    let short = pruned(cells);
    lemma_live_cells(cells);
    assert forall|k: int| 0 <= k < short.len() implies #[trigger] same_cell(cells, short, at, k)
        && cell_ok(short, k) by {
        let c = at[k];
        assert(cell_ok(cells, c));
        match cells[c].gate_type.spec_operands() {
            Some((l, r)) => {
                assert(cells[c].gate_type.reads(l));
                assert(cells[c].gate_type.reads(r));
                assert(at[rank(s, l) as int] == l);
                assert(at[rank(s, r) as int] == r);
            },
            None => {},
        }
    }
    assert forall|k: int| 0 <= k < short.len() implies cell_ok(short, k) by {
        assert(same_cell(cells, short, at, k));
    }
    assert forall|i: int, j: int|
        0 <= i < j < short.len() && (#[trigger] short[i]).gate_type
            != CellGateType::Witness implies short[i].gate_type != (#[trigger] short[j]).gate_type by {
        if short[i].gate_type == short[j].gate_type {
            let (l, r) = cells[at[i]].gate_type.spec_operands().unwrap();
            let (l2, r2) = cells[at[j]].gate_type.spec_operands().unwrap();
            assert(cells[at[i]].gate_type.reads(l));
            assert(cells[at[i]].gate_type.reads(r));
            assert(cells[at[j]].gate_type.reads(l2));
            assert(cells[at[j]].gate_type.reads(r2));
            assert(at[rank(s, l) as int] == l);
            assert(at[rank(s, r) as int] == r);
            assert(at[rank(s, l2) as int] == l2);
            assert(at[rank(s, r2) as int] == r2);
            assert(cells[at[i]].gate_type == cells[at[j]].gate_type);
            assert(at[i] < at[j]);
        }
    }
    assert forall|i: int|
        0 <= i < cells.len() && (#[trigger] cells[i]).layer_id + 1 == layer_count(
            cells,
        ) implies at.contains(i) by {
        assert(kept(cells, 0).contains(i));
        assert(at[rank(s, i) as int] == i);
    }
    lemma_dead_cells_do_not_matter(cells, short, at);
}

} // verus!
