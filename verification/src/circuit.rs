//! The layered circuit handed to the prover and the verifier.
use vstd::prelude::*;

verus! {

/// The operation that a gate performs on its two operands.
#[derive(Clone, Copy, Debug, PartialEq, Eq, Structural)]
pub enum GateType {
    Add,
    Mul,
}

/// A binary gate. `left` and `right` are positions in the next layer
/// towards the inputs, or among the inputs for a gate of the last layer.
#[derive(Clone, Copy, Debug, PartialEq, Eq)]
pub struct Gate {
    pub ty: GateType,
    pub left: usize,
    pub right: usize,
}

impl Gate {
    /// A gate of kind `ty` that reads the positions `inputs[0]` and `inputs[1]`.
    pub fn new(ty: GateType, inputs: [usize; 2]) -> (gate: Gate)
        ensures
            gate.ty == ty,
            gate.left == inputs[0],
            gate.right == inputs[1],
    {
        Gate { ty, left: inputs[0], right: inputs[1] }
    }

    /// The two operand positions, left first.
    pub fn inputs(&self) -> (inputs: [usize; 2])
        ensures
            inputs[0] == self.left,
            inputs[1] == self.right,
    {
        [self.left, self.right]
    }
}

/// One layer of a circuit: its gates, in the order of their positions.
#[derive(Debug, PartialEq, Eq)]
pub struct CircuitLayer {
    gates: Vec<Gate>,
}

impl View for CircuitLayer {
    type V = Seq<Gate>;

    closed spec fn view(&self) -> Seq<Gate> {
        self.gates@
    }
}

impl CircuitLayer {
    /// The layer whose gate at position `i` is `gates[i]`.
    pub fn new(gates: Vec<Gate>) -> (layer: CircuitLayer)
        ensures
            layer@ == gates@,
    {
        CircuitLayer { gates }
    }

    /// The gates of the layer, by position.
    pub fn gates(&self) -> (gates: &Vec<Gate>)
        ensures
            gates@ == self@,
    {
        &self.gates
    }

    /// The number of gates in the layer.
    pub fn len(&self) -> (n: usize)
        ensures
            n == self@.len(),
    {
        self.gates.len()
    }
}

impl Clone for CircuitLayer {
    fn clone(&self) -> (layer: CircuitLayer)
        ensures
            layer@ == self@,
    {
        let mut gates: Vec<Gate> = Vec::new();
        let mut i: usize = 0;
        while i < self.gates.len()
            invariant
                i <= self.gates@.len(),
                gates@ == self.gates@.take(i as int),
            decreases self.gates@.len() - i,
        {
            gates.push(self.gates[i]);
            assert(gates@ == self.gates@.take(i + 1));
            i += 1;
        }
        assert(gates@ == self.gates@);
        CircuitLayer { gates }
    }
}

/// The gates of each layer of a sequence of layers.
pub open spec fn layer_views(layers: Seq<CircuitLayer>) -> Seq<Seq<Gate>> {
    Seq::new(layers.len(), |i: int| layers[i]@)
}

/// The mathematical content of a [`Circuit`].
pub struct CircuitView {
    /// The layers, from the output layer (index 0) to the one next to the inputs.
    pub layers: Seq<Seq<Gate>>,
    /// The number of inputs.
    pub num_inputs: nat,
}

impl CircuitView {
    /// The number of positions that a gate of layer `i` may name: the size
    /// of layer `i + 1`, or the number of inputs below the last layer.
    pub open spec fn width_below(self, i: int) -> nat {
        if i + 1 < self.layers.len() {
            self.layers[i + 1].len()
        } else {
            self.num_inputs
        }
    }

    /// Every operand of every gate is a position that exists in the layer below.
    pub open spec fn well_formed(self) -> bool {
        forall|i: int, k: int|
            0 <= i < self.layers.len() && 0 <= k < self.layers[i].len() ==> {
                &&& (#[trigger] self.layers[i][k]).left < self.width_below(i)
                &&& self.layers[i][k].right < self.width_below(i)
            }
    }
}

/// A layered circuit: layers from the output layer down, and an input
/// count. Every circuit is well formed: a gate names only positions that
/// the layer below it has.
#[derive(Debug, PartialEq, Eq)]
pub struct Circuit {
    layers: Vec<CircuitLayer>,
    num_inputs: usize,
}

impl View for Circuit {
    type V = CircuitView;

    closed spec fn view(&self) -> CircuitView {
        CircuitView { layers: layer_views(self.layers@), num_inputs: self.num_inputs as nat }
    }
}

impl Clone for Circuit {
    fn clone(&self) -> (circuit: Circuit)
        ensures
            circuit@ == self@,
    {
        proof {
            use_type_invariant(self);
        }
        let mut layers: Vec<CircuitLayer> = Vec::new();
        let mut i: usize = 0;
        while i < self.layers.len()
            invariant
                i <= self.layers@.len(),
                layers@.len() == i,
                forall|k: int| 0 <= k < i ==> (#[trigger] layers@[k])@ == self.layers@[k]@,
            decreases self.layers@.len() - i,
        {
            layers.push(self.layers[i].clone());
            i += 1;
        }
        assert(layer_views(layers@) =~= layer_views(self.layers@));
        Circuit { layers, num_inputs: self.num_inputs }
    }
}

impl Circuit {
    #[verifier::type_invariant]
    closed spec fn inv(self) -> bool {
        self@.well_formed()
    }

    /// The circuit with the given layers, output layer first, over
    /// `num_inputs` inputs. The operands of every gate must be positions of
    /// the layer below it.
    pub fn new(layers: Vec<CircuitLayer>, num_inputs: usize) -> (circuit: Circuit)
        requires
            (CircuitView { layers: layer_views(layers@), num_inputs: num_inputs as nat }).well_formed(),
        ensures
            circuit@.layers == layer_views(layers@),
            circuit@.num_inputs == num_inputs,
            circuit@.well_formed(),
    {
        Circuit { layers, num_inputs }
    }

    /// The layers, output layer first.
    pub fn layers(&self) -> (layers: &Vec<CircuitLayer>)
        ensures
            layer_views(layers@) == self@.layers,
            self@.well_formed(),
    {
        proof {
            use_type_invariant(self);
        }
        &self.layers
    }

    /// The number of layers of gates.
    pub fn num_layers(&self) -> (n: usize)
        ensures
            n == self@.layers.len(),
    {
        self.layers.len()
    }

    /// The number of inputs.
    pub fn num_inputs(&self) -> (n: usize)
        ensures
            n == self@.num_inputs,
    {
        self.num_inputs
    }
}

} // verus!
