//! Layered arithmetic circuits of two-input gates.
//!
//! Layer 0 is the output layer and the layer after the last gate layer holds
//! the inputs. A gate reads two wires of the next layer, the layer closer to
//! the inputs. A circuit built by `Circuit::new` gives gate `g` of a layer the
//! wires `2g` and `2g + 1` of the next one, so every wire feeds at most one
//! gate: this fan-out of one is a constraint of the model.

use vstd::prelude::*;
use vstd::arithmetic::power2::*;
use vstd::arithmetic::div_mod::{lemma_basic_div, lemma_small_mod};
use vstd::bits::{
    lemma_usize_low_bits_mask_is_mod, lemma_usize_pow2_no_overflow, lemma_usize_shl_is_mul,
    lemma_usize_shr_is_div,
};
use crate::field::{copy_elements, modulus, residue, values, Fq};
use crate::mle::{is_power_of_two, pow2_checked, power_of_two, Mle};

verus! {

/// The number of bits that index `n` positions: the least `k` with
/// `n <= 2^k`.
pub open spec fn bit_width(n: nat) -> nat
    decreases n,
{
    if n <= 1 {
        0
    } else {
        1 + bit_width((n + 1) / 2)
    }
}

/// `bit_width(n)` bits are enough for `n` positions, and one fewer is not.
pub proof fn lemma_bit_width_bounds(n: nat)
    ensures
        n <= pow2(bit_width(n)),
        n > 1 ==> bit_width(n) >= 1 && pow2((bit_width(n) - 1) as nat) < n,
    decreases n,
{
    lemma2_to64();
    if n > 1 {
        let m = (n + 1) / 2;
        lemma_bit_width_bounds(m);
        lemma_pow2_unfold(bit_width(m) + 1);
        if m > 1 {
            lemma_pow2_unfold(bit_width(m));
        }
    }
}

/// The bounds of `lemma_bit_width_bounds` hold of one number only.
pub proof fn lemma_bit_width_unique(n: nat, r: nat)
    requires
        n <= 1 ==> r == 0,
        n > 1 ==> r >= 1 && pow2((r - 1) as nat) < n <= pow2(r),
    ensures
        r == bit_width(n),
{
    lemma_bit_width_bounds(n);
    let w = bit_width(n);
    if n > 1 {
        if r < w {
            if r < w - 1 {
                lemma_pow2_strictly_increases(r, (w - 1) as nat);
            }
        } else if w < r {
            if w < r - 1 {
                lemma_pow2_strictly_increases(w, (r - 1) as nat);
            }
        }
    }
}

/// The `len` bits of `value` from bit `start` upwards, as a number.
pub open spec fn bit_field(value: int, start: nat, len: nat) -> int {
    (value / (pow2(start) as int)) % (pow2(len) as int)
}

/// `ark_std::log2` returns the ceiling of the base-2 logarithm: 0 for 0 and for
/// 1, and for a larger `x` the one `r` with `2^(r-1) < x <= 2^r`.
pub assume_specification[ ark_std::log2 ](x: usize) -> (r: u32)
    ensures
        x <= 1 ==> r == 0,
        x > 1 ==> r >= 1 && pow2((r - 1) as nat) < x <= pow2(r as nat),
;

/// The operation of a gate.
#[derive(Clone, Copy, PartialEq, Eq, Structural, Debug)]
pub enum GateType {
    Add,
    Mult,
}

impl GateType {
    /// The sign of the operation: `+` or `*`.
    pub fn symbol(&self) -> (c: char)
        ensures
            c == (if *self == GateType::Add {
                '+'
            } else {
                '*'
            }),
    {
        if *self == GateType::Add {
            '+'
        } else {
            '*'
        }
    }
}

/// What a gate of the given kind makes of its two inputs, before reduction.
pub open spec fn gate_output(kind: GateType, left: int, right: int) -> int {
    match kind {
        GateType::Add => left + right,
        GateType::Mult => left * right,
    }
}

/// A gate: its operation, the positions of its two inputs in the next layer,
/// and the value it computes.
#[derive(Clone, Copy, Debug)]
pub struct Gate {
    pub kind: GateType,
    pub left: usize,
    pub right: usize,
    pub output: Fq,
}

/// Why a circuit could not be built or queried.
#[derive(Clone, Copy, PartialEq, Eq, Structural, Debug)]
pub enum CircuitError {
    /// The number of inputs is odd.
    OddInputLength,
    /// The number of inputs is even but no power of two.
    InputLengthNotPowerOfTwo,
    /// The layer with this position in the description has more gates than
    /// the wires below it can feed two at a time.
    InsufficientInputs { layer: usize },
    /// There is no gate layer with this index.
    LayerOutOfRange,
    /// The table would have more entries than can be addressed.
    TableTooLarge,
}

/// A circuit as the contracts see it: its layers of gates, output layer first,
/// and the representatives of the inputs.
pub struct CircuitView {
    pub layers: Seq<Seq<Gate>>,
    pub inputs: Seq<int>,
}

impl CircuitView {
    /// The number of gate layers; the inputs are layer `depth()`.
    pub open spec fn depth(self) -> nat {
        self.layers.len()
    }

    /// The number of wires of layer `i`.
    pub open spec fn width(self, i: int) -> nat {
        if 0 <= i < self.layers.len() {
            self.layers[i].len()
        } else {
            self.inputs.len()
        }
    }

    /// The value on wire `g` of layer `i`.
    pub open spec fn wire(self, i: int, g: int) -> int {
        if 0 <= i < self.layers.len() {
            self.layers[i][g].output.value()
        } else {
            self.inputs[g]
        }
    }

    /// Gate `g` of layer `i` reads wires of the next layer and holds what its
    /// operation makes of them.
    pub open spec fn gate_holds(self, i: int, g: int) -> bool {
        let gate = self.layers[i][g];
        &&& gate.left < self.width(i + 1)
        &&& gate.right < self.width(i + 1)
        &&& gate.output.value() == residue(
            gate_output(gate.kind, self.wire(i + 1, gate.left as int), self.wire(i + 1, gate.right as int)),
        )
    }

    /// Every gate holds, and every input is a canonical representative.
    pub open spec fn well_formed(self) -> bool {
        &&& forall|i: int, g: int|
            0 <= i < self.layers.len() && 0 <= g < self.layers[i].len() ==> #[trigger] self.gate_holds(
                i,
                g,
            )
        &&& forall|g: int| 0 <= g < self.inputs.len() ==> 0 <= #[trigger] self.inputs[g] < modulus()
    }

    /// The values of the output layer.
    pub open spec fn outputs(self) -> Seq<int> {
        Seq::new(self.width(0), |g: int| self.wire(0, g))
    }

    /// The number of bits that index the wires of layer `i`.
    pub open spec fn bits(self, i: int) -> nat {
        bit_width(self.width(i))
    }

    /// The table of a wiring predicate of layer `i` over the hypercube of
    /// `bits(i) + 2 * bits(i + 1)` variables: 1 where the predicate holds and 0
    /// elsewhere. An index packs a gate's position into its low bits, then
    /// the position of the first input, then that of the second.
    pub open spec fn wiring_table(self, kind: GateType, i: int) -> Seq<int> {
        let k = self.bits(i);
        let k1 = self.bits(i + 1);
        Seq::new(
            pow2(k + 2 * k1),
            |x: int|
                if self.is_wire(kind, i, bit_field(x, 0, k), bit_field(x, k, k1), bit_field(x, k + k1, k1)) {
                    1int
                } else {
                    0int
                },
        )
    }

    /// The table of the values of layer `i` over the hypercube of `bits(i)`
    /// variables, 0 where there is no wire.
    pub open spec fn wire_table(self, i: int) -> Seq<int> {
        Seq::new(
            pow2(self.bits(i)),
            |g: int|
                if g < self.width(i) {
                    self.wire(i, g)
                } else {
                    0
                },
        )
    }

    /// The wiring tables of layer `i` have no more entries than can be
    /// addressed.
    pub open spec fn wiring_fits(self, i: int) -> bool {
        pow2(self.bits(i) + 2 * self.bits(i + 1)) <= usize::MAX
    }

    /// The table of the values of layer `i` has no more entries than can be
    /// addressed.
    pub open spec fn values_fit(self, i: int) -> bool {
        pow2(self.bits(i)) <= usize::MAX
    }

    /// Every table that the protocol builds can be addressed.
    pub open spec fn addressable(self) -> bool {
        &&& self.values_fit(0)
        &&& self.values_fit(self.depth() as int)
        &&& forall|i: int| 0 <= i < self.depth() ==> #[trigger] self.wiring_fits(i)
    }

    /// What building the extension of `table`, a table of layer `i` over
    /// `bits(i) + 2 * bits(i + 1)` variables, comes to: the extension where the
    /// layer is a gate layer and the table can be addressed, and the reason
    /// where not.
    pub open spec fn built_table(self, i: int, table: Seq<int>, r: Result<Mle, CircuitError>) -> bool {
        match r {
            Ok(m) => {
                &&& i < self.depth()
                &&& self.wiring_fits(i)
                &&& m.arity() == self.bits(i) + 2 * self.bits(i + 1)
                &&& m@ == table
            },
            Err(CircuitError::LayerOutOfRange) => i >= self.depth(),
            Err(CircuitError::TableTooLarge) => i < self.depth() && !self.wiring_fits(i),
            Err(_) => false,
        }
    }

    /// The wiring predicate: gate `a` of layer `i` has the given kind and
    /// reads wire `b` of layer `i + 1` as its first input and wire `c` as its
    /// second. It is false of every position outside the layer.
    pub open spec fn is_wire(self, kind: GateType, i: int, a: int, b: int, c: int) -> bool {
        &&& 0 <= i < self.layers.len()
        &&& 0 <= a < self.layers[i].len()
        &&& self.layers[i][a].kind == kind
        &&& self.layers[i][a].left == b
        &&& self.layers[i][a].right == c
    }
}

/// The number of wires that feed the layer described at position `j`: the
/// inputs for the first one, the gates of the one before for the others.
pub open spec fn feeding_width(kinds: Seq<Vec<GateType>>, n_inputs: nat, j: int) -> nat {
    if j <= 0 {
        n_inputs
    } else {
        kinds[j - 1]@.len()
    }
}

/// The layer described at position `j` asks for more wires than feed it.
pub open spec fn is_short(kinds: Seq<Vec<GateType>>, n_inputs: nat, j: int) -> bool {
    2 * kinds[j]@.len() > feeding_width(kinds, n_inputs, j)
}

/// A layered circuit, evaluated on its inputs.
pub struct Circuit {
    layers: Vec<Vec<Gate>>,
    inputs: Vec<Fq>,
}

impl Circuit {
    /// The layers and the inputs.
    pub closed spec fn view(&self) -> CircuitView {
        CircuitView {
            layers: Seq::new(self.layers@.len(), |i: int| self.layers@[i]@),
            inputs: values(self.inputs@),
        }
    }

    /// Every gate reads wires that exist and holds what it computes.
    #[verifier::type_invariant]
    pub open spec fn well_formed(&self) -> bool {
        self@.well_formed()
    }

    /// Builds the circuit whose gate layers have the given kinds, first the
    /// layer next to the inputs and last the output layer, and evaluates it.
    /// Gate `g` of a layer reads wires `2g` and `2g + 1` of the layer below, from
    /// left to right. The number of inputs must be even and a power of two,
    /// and no layer may have more gates than half the wires below it.
    pub fn new(circuit_layer: Vec<Vec<GateType>>, inputs: &[Fq]) -> (r: Result<Circuit, CircuitError>)
        ensures
            match r {
                Ok(c) => {
                    let d = circuit_layer@.len() as int;
                    &&& inputs@.len() % 2 == 0
                    &&& is_power_of_two(inputs@.len())
                    &&& forall|j: int| 0 <= j < d ==> !is_short(circuit_layer@, inputs@.len(), j)
                    &&& c@.well_formed()
                    &&& c@.inputs == values(inputs@)
                    &&& c@.depth() == d
                    &&& forall|j: int|
                        0 <= j < d ==> (#[trigger] c@.layers[d - 1 - j]).len() == circuit_layer@[j]@.len()
                    &&& forall|j: int, g: int|
                        0 <= j < d && 0 <= g < circuit_layer@[j]@.len() ==> {
                            let gate = #[trigger] c@.layers[d - 1 - j][g];
                            &&& gate.kind == circuit_layer@[j]@[g]
                            &&& gate.left == 2 * g
                            &&& gate.right == 2 * g + 1
                        }
                },
                Err(CircuitError::OddInputLength) => inputs@.len() % 2 == 1,
                Err(CircuitError::InputLengthNotPowerOfTwo) => inputs@.len() % 2 == 0 && !is_power_of_two(
                    inputs@.len(),
                ),
                Err(CircuitError::InsufficientInputs { layer }) => {
                    &&& inputs@.len() % 2 == 0
                    &&& is_power_of_two(inputs@.len())
                    &&& layer < circuit_layer@.len()
                    &&& is_short(circuit_layer@, inputs@.len(), layer as int)
                    &&& forall|j: int| 0 <= j < layer ==> !is_short(circuit_layer@, inputs@.len(), j)
                },
                Err(_) => false,
            },
    {
        if inputs.len() % 2 != 0 {
            return Err(CircuitError::OddInputLength);
        }
        if !power_of_two(inputs.len()) {
            return Err(CircuitError::InputLengthNotPowerOfTwo);
        }
        let kept: Vec<Fq> = copy_elements(inputs);
        let mut layers: Vec<Vec<Gate>> = Vec::new();
        let mut below: Vec<Fq> = copy_elements(inputs);
        let mut j: usize = 0;
        while j < circuit_layer.len()
            invariant
                j <= circuit_layer@.len(),
                kept@ == inputs@,
                inputs@.len() % 2 == 0,
                is_power_of_two(inputs@.len()),
                layers@.len() == j,
                forall|k: int| 0 <= k < j ==> !is_short(circuit_layer@, inputs@.len(), k),
                stack_view(layers@, kept@).well_formed(),
                below@.len() == stack_view(layers@, kept@).width(0),
                forall|g: int|
                    0 <= g < below@.len() ==> (#[trigger] below@[g]).value() == stack_view(
                        layers@,
                        kept@,
                    ).wire(0, g),
                forall|k: int| 0 <= k < j ==> (#[trigger] layers@[j - 1 - k])@.len() == circuit_layer@[k]@.len(),
                forall|k: int, g: int|
                    0 <= k < j && 0 <= g < circuit_layer@[k]@.len() ==> {
                        let gate = #[trigger] layers@[j - 1 - k]@[g];
                        &&& gate.kind == circuit_layer@[k]@[g]
                        &&& gate.left == 2 * g
                        &&& gate.right == 2 * g + 1
                    },
            decreases circuit_layer@.len() - j,
        {
            let kinds = &circuit_layer[j];
            proof {
                if j > 0 {
                    let k = j - 1;
                    assert((#[trigger] layers@[j - 1 - k])@.len() == circuit_layer@[k]@.len());
                    assert(stack_view(layers@, kept@).layers[0] == layers@[0]@);
                }
                assert(below@.len() == feeding_width(circuit_layer@, inputs@.len(), j as int));
            }
            if kinds.len() > below.len() / 2 {
                return Err(CircuitError::InsufficientInputs { layer: j });
            }
            assert(below@.len() <= usize::MAX);
            let mut gates: Vec<Gate> = Vec::with_capacity(kinds.len());
            let mut outputs: Vec<Fq> = Vec::with_capacity(kinds.len());
            let mut g: usize = 0;
            while g < kinds.len()
                invariant
                    g <= kinds@.len(),
                    2 * kinds@.len() <= below@.len(),
                    below@.len() <= usize::MAX,
                    gates@.len() == g,
                    outputs@.len() == g,
                    forall|h: int|
                        0 <= h < g ==> {
                            let gate = #[trigger] gates@[h];
                            &&& gate.kind == kinds@[h]
                            &&& gate.left == 2 * h
                            &&& gate.right == 2 * h + 1
                            &&& gate.output == outputs@[h]
                            &&& gate.output.value() == residue(
                                gate_output(gate.kind, below@[2 * h].value(), below@[2 * h + 1].value()),
                            )
                        },
                decreases kinds@.len() - g,
            {
                let left = 2 * g;
                let right = 2 * g + 1;
                let kind = kinds[g];
                let output = match kind {
                    GateType::Add => below[left].add(&below[right]),
                    GateType::Mult => below[left].mul(&below[right]),
                };
                gates.push(Gate { kind, left, right, output });
                outputs.push(output);
                g = g + 1;
            }
            let ghost old_layers = layers@;
            layers.insert(0, gates);
            proof {
                let old_view = stack_view(old_layers, kept@);
                let new_view = stack_view(layers@, kept@);
                assert(new_view.layers[0] == gates@);
                assert forall|i: int| 1 <= i < new_view.layers.len() implies new_view.layers[i]
                    == old_view.layers[i - 1] by {
                    assert(layers@[i] == old_layers[i - 1]);
                }
                assert forall|i: int, h: int|
                    0 <= i < new_view.layers.len() && 0 <= h
                        < new_view.layers[i].len() implies #[trigger] new_view.gate_holds(i, h) by {
                    assert(new_view.width(i + 1) == old_view.width(i)) by {
                        if i + 1 < new_view.layers.len() {
                            assert(new_view.layers[i + 1] == old_view.layers[i]);
                        }
                    }
                    assert forall|x: int| new_view.wire(i + 1, x) == old_view.wire(i, x) by {
                        if i + 1 < new_view.layers.len() {
                            assert(new_view.layers[i + 1] == old_view.layers[i]);
                        }
                    }
                    if i == 0 {
                        let gate = gates@[h];
                        assert(gate.left == 2 * h && gate.right == 2 * h + 1);
                        assert(below@[2 * h].value() == old_view.wire(0, 2 * h));
                        assert(below@[2 * h + 1].value() == old_view.wire(0, 2 * h + 1));
                    } else {
                        assert(old_view.gate_holds(i - 1, h));
                        assert(new_view.layers[i] == old_view.layers[i - 1]);
                    }
                }
                assert(new_view.inputs == old_view.inputs);
                assert(new_view.well_formed());
                assert(outputs@.len() == new_view.width(0));
                assert forall|h: int| 0 <= h < outputs@.len() implies (#[trigger] outputs@[h]).value()
                    == new_view.wire(0, h) by {
                    assert(gates@[h].output == outputs@[h]);
                }
                assert forall|k: int| 0 <= k < j + 1 implies (#[trigger] layers@[j + 1 - 1 - k])@.len()
                    == circuit_layer@[k]@.len() by {
                    if k < j {
                        assert(layers@[j - k] == old_layers[j - 1 - k]);
                    }
                }
                assert forall|k: int, h: int|
                    0 <= k < j + 1 && 0 <= h < circuit_layer@[k]@.len() implies {
                    let gate = #[trigger] layers@[j + 1 - 1 - k]@[h];
                    &&& gate.kind == circuit_layer@[k]@[h]
                    &&& gate.left == 2 * h
                    &&& gate.right == 2 * h + 1
                } by {
                    if k < j {
                        assert(layers@[j - k] == old_layers[j - 1 - k]);
                    }
                }
            }
            below = outputs;
            j = j + 1;
        }
        let c = Circuit { layers, inputs: kept };
        proof {
            assert(c@ == stack_view(layers@, kept@));
            let d = circuit_layer@.len() as int;
            assert forall|k: int| 0 <= k < d implies (#[trigger] c@.layers[d - 1 - k]).len()
                == circuit_layer@[k]@.len() by {
                assert(layers@[d - 1 - k]@.len() == circuit_layer@[k]@.len());
            }
            assert forall|k: int, h: int| 0 <= k < d && 0 <= h < circuit_layer@[k]@.len() implies {
                let gate = #[trigger] c@.layers[d - 1 - k][h];
                &&& gate.kind == circuit_layer@[k]@[h]
                &&& gate.left == 2 * h
                &&& gate.right == 2 * h + 1
            } by {
                let gate = layers@[d - 1 - k]@[h];
                assert(gate.left == 2 * h);
            }
        }
        Ok(c)
    }

    /// The number of gate layers.
    pub fn depth(&self) -> (d: usize)
        ensures
            d == self@.depth(),
            self@.well_formed(),
    {
        proof {
            use_type_invariant(self);
        }
        self.layers.len()
    }

    /// The number of wires of layer `i`, the inputs being layer `depth()`.
    pub fn width(&self, i: usize) -> (w: usize)
        ensures
            w == self@.width(i as int),
    {
        if i < self.layers.len() {
            self.layers[i].len()
        } else {
            self.inputs.len()
        }
    }

    /// Gate `g` of layer `i`; none where there is no such gate.
    pub fn gate(&self, i: usize, g: usize) -> (r: Option<Gate>)
        ensures
            r is Some <==> i < self@.depth() && g < self@.width(i as int),
            r is Some ==> r->0 == self@.layers[i as int][g as int],
    {
        if i < self.layers.len() && g < self.layers[i].len() {
            Some(self.layers[i][g])
        } else {
            None
        }
    }

    /// The value on wire `gate` of layer `i`; none outside the circuit.
    pub fn w_i(&self, i: usize, gate: usize) -> (r: Option<Fq>)
        ensures
            r is Some <==> i <= self@.depth() && gate < self@.width(i as int),
            r is Some ==> r->0.value() == self@.wire(i as int, gate as int),
    {
        if i < self.layers.len() {
            if gate < self.layers[i].len() {
                Some(self.layers[i][gate].output)
            } else {
                None
            }
        } else if i == self.layers.len() && gate < self.inputs.len() {
            Some(self.inputs[gate])
        } else {
            None
        }
    }

    /// Whether gate `a` of layer `i` adds wire `b` and wire `c` of layer
    /// `i + 1`, in that order.
    pub fn add_i(&self, i: usize, a: usize, b: usize, c: usize) -> (r: bool)
        ensures
            r == self@.is_wire(GateType::Add, i as int, a as int, b as int, c as int),
    {
        self.wire_i(GateType::Add, i, a, b, c)
    }

    /// Whether gate `a` of layer `i` multiplies wire `b` and wire `c` of
    /// layer `i + 1`, in that order.
    pub fn mult_i(&self, i: usize, a: usize, b: usize, c: usize) -> (r: bool)
        ensures
            r == self@.is_wire(GateType::Mult, i as int, a as int, b as int, c as int),
    {
        self.wire_i(GateType::Mult, i, a, b, c)
    }

    /// The values of the output layer.
    pub fn outputs(&self) -> (r: Vec<Fq>)
        ensures
            values(r@) == self@.outputs(),
    {
        let n = self.width(0);
        let mut r: Vec<Fq> = Vec::with_capacity(n);
        let mut g: usize = 0;
        while g < n
            invariant
                g <= n,
                n == self@.width(0),
                r@.len() == g,
                forall|h: int| 0 <= h < g ==> (#[trigger] r@[h]).value() == self@.wire(0, h),
            decreases n - g,
        {
            let v = match self.w_i(0, g) {
                Some(v) => v,
                None => Fq::zero(),
            };
            r.push(v);
            g = g + 1;
        }
        proof {
            assert(values(r@) =~= self@.outputs());
        }
        r
    }

    /// The number of bits that index the wires of layer `i`.
    pub fn layer_bit_width(&self, i: usize) -> (k: usize)
        ensures
            k == self@.bits(i as int),
            k <= usize::BITS,
    {
        let w = self.width(i);
        let r = ark_std::log2(w);
        proof {
            lemma_bit_width_unique(w as nat, r as nat);
            if r > usize::BITS {
                lemma_word_below_pow2(w, (r - 1) as nat);
            }
        }
        r as usize
    }

    /// The `num_bits` bits of `value` from bit `start_bit` upwards: the
    /// position of one gate in a packed index.
    pub fn extract_index(value: usize, start_bit: usize, num_bits: usize) -> (r: usize)
        ensures
            r == bit_field(value as int, start_bit as nat, num_bits as nat),
    {
        proof {
            lemma2_to64();
            lemma_pow2_pos(start_bit as nat);
            lemma_pow2_pos(num_bits as nat);
        }
        if num_bits == 0 {
            return 0;
        }
        if start_bit >= usize::BITS as usize {
            proof {
                lemma_word_below_pow2(value, start_bit as nat);
                lemma_basic_div(value as int, pow2(start_bit as nat) as int);
                lemma_small_mod(0, pow2(num_bits as nat));
                assert(value as int / (pow2(start_bit as nat) as int) == 0);
            }
            return 0;
        }
        let shifted = value >> start_bit;
        proof {
            lemma_usize_shr_is_div(value, start_bit);
        }
        if num_bits >= usize::BITS as usize {
            proof {
                lemma_word_below_pow2(shifted, num_bits as nat);
                lemma_small_mod(shifted as nat, pow2(num_bits as nat));
            }
            return shifted;
        }
        proof {
            lemma_usize_pow2_no_overflow(num_bits as nat);
            lemma_usize_shl_is_mul(1, num_bits);
            lemma_usize_low_bits_mask_is_mod(shifted, num_bits as nat);
        }
        shifted & ((1usize << num_bits) - 1)
    }

    /// The multilinear extension of the addition predicate of layer
    /// `layer_i`: of the table that is 1 at the packed index of `(a, b, c)` where
    /// gate `a` adds wires `b` and `c`, and 0 elsewhere.
    pub fn add_i_mle(&self, layer_i: usize) -> (r: Result<Mle, CircuitError>)
        ensures
            self@.built_table(layer_i as int, self@.wiring_table(GateType::Add, layer_i as int), r),
    {
        self.wiring_mle(GateType::Add, layer_i)
    }

    /// The multilinear extension of the multiplication predicate of layer
    /// `layer_i`, as `add_i_mle` is that of the addition predicate.
    pub fn mult_i_mle(&self, layer_i: usize) -> (r: Result<Mle, CircuitError>)
        ensures
            self@.built_table(layer_i as int, self@.wiring_table(GateType::Mult, layer_i as int), r),
    {
        self.wiring_mle(GateType::Mult, layer_i)
    }

    /// The multilinear extension of the wiring predicate of the given kind.
    fn wiring_mle(&self, kind: GateType, layer_i: usize) -> (r: Result<Mle, CircuitError>)
        ensures
            self@.built_table(layer_i as int, self@.wiring_table(kind, layer_i as int), r),
    {
        if layer_i >= self.layers.len() {
            return Err(CircuitError::LayerOutOfRange);
        }
        let current_layer_bits = self.layer_bit_width(layer_i);
        let next_layer_bits = self.layer_bit_width(layer_i + 1);
        let num_variables = current_layer_bits + 2 * next_layer_bits;
        let num_points = match pow2_checked(num_variables) {
            Some(p) => p,
            None => {
                return Err(CircuitError::TableTooLarge);
            },
        };
        let mut evaluations: Vec<Fq> = Vec::new();
        let mut x: usize = 0;
        while x < num_points
            invariant
                x <= num_points,
                layer_i < self@.depth(),
                current_layer_bits == self@.bits(layer_i as int),
                next_layer_bits == self@.bits(layer_i + 1),
                current_layer_bits + next_layer_bits <= usize::MAX,
                num_points == pow2((current_layer_bits + 2 * next_layer_bits) as nat),
                evaluations@.len() == x,
                forall|y: int|
                    0 <= y < x ==> (#[trigger] evaluations@[y]).value() == self@.wiring_table(
                        kind,
                        layer_i as int,
                    )[y],
            decreases num_points - x,
        {
            let a = Self::extract_index(x, 0, current_layer_bits);
            let b = Self::extract_index(x, current_layer_bits, next_layer_bits);
            let c = Self::extract_index(x, current_layer_bits + next_layer_bits, next_layer_bits);
            let is_valid = self.wire_i(kind, layer_i, a, b, c);
            evaluations.push(
                if is_valid {
                    Fq::one()
                } else {
                    Fq::zero()
                },
            );
            x = x + 1;
        }
        proof {
            assert(values(evaluations@) =~= self@.wiring_table(kind, layer_i as int));
        }
        Ok(Mle::from_table(num_variables, evaluations))
    }

    /// The multilinear extension of the wire values of layer `i`, the inputs
    /// being layer `depth()`: of the table of the values, filled with zeros up
    /// to the next power of two.
    pub fn w_i_mle(&self, i: usize) -> (r: Result<Mle, CircuitError>)
        ensures
            match r {
                Ok(m) => {
                    &&& i <= self@.depth()
                    &&& self@.values_fit(i as int)
                    &&& m.arity() == self@.bits(i as int)
                    &&& m@ == self@.wire_table(i as int)
                },
                Err(CircuitError::LayerOutOfRange) => i > self@.depth(),
                Err(CircuitError::TableTooLarge) => i <= self@.depth() && !self@.values_fit(i as int),
                Err(_) => false,
            },
    {
        if i > self.layers.len() {
            return Err(CircuitError::LayerOutOfRange);
        }
        let bits = self.layer_bit_width(i);
        let size = match pow2_checked(bits) {
            Some(p) => p,
            None => {
                return Err(CircuitError::TableTooLarge);
            },
        };
        let width = self.width(i);
        let mut evaluations: Vec<Fq> = Vec::new();
        let mut g: usize = 0;
        while g < size
            invariant
                g <= size,
                i <= self@.depth(),
                width == self@.width(i as int),
                size == pow2(self@.bits(i as int)),
                evaluations@.len() == g,
                forall|y: int|
                    0 <= y < g ==> (#[trigger] evaluations@[y]).value() == self@.wire_table(i as int)[y],
            decreases size - g,
        {
            let v = if g < width {
                match self.w_i(i, g) {
                    Some(v) => v,
                    None => Fq::zero(),
                }
            } else {
                Fq::zero()
            };
            evaluations.push(v);
            g = g + 1;
        }
        proof {
            assert(values(evaluations@) =~= self@.wire_table(i as int));
        }
        Ok(Mle::from_table(bits, evaluations))
    }

    /// The wiring predicate of the given kind.
    fn wire_i(&self, kind: GateType, i: usize, a: usize, b: usize, c: usize) -> (r: bool)
        ensures
            r == self@.is_wire(kind, i as int, a as int, b as int, c as int),
    {
        if i >= self.layers.len() || a >= self.layers[i].len() {
            return false;
        }
        let gate = &self.layers[i][a];
        gate.kind == kind && gate.left == b && gate.right == c
    }
}

/// A machine word is below `2^n` for every `n` that is at least the word's
/// size in bits.
proof fn lemma_word_below_pow2(value: usize, n: nat)
    requires
        n >= usize::BITS,
    ensures
        value < pow2(n),
{
    lemma2_to64();
    if n > usize::BITS {
        lemma_pow2_strictly_increases(usize::BITS as nat, n);
    }
}

/// The view of a circuit with the given layers and inputs.
pub open spec fn stack_view(layers: Seq<Vec<Gate>>, inputs: Seq<Fq>) -> CircuitView {
    CircuitView { layers: Seq::new(layers.len(), |i: int| layers[i]@), inputs: values(inputs) }
}

} // verus!
