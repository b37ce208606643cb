//! Layered arithmetic circuits.
//!
//! A circuit is a feed-forward DAG of scalar gates grouped into layers.
//! Cross-layer references are integer indices into the immediately
//! preceding layer — an arena per layer rather than shared pointers — so a
//! gate can never reference its own or a later layer. Layers are stored
//! output-first: index 0 is the output layer, the last index the input
//! layer, matching the order in which a GKR-style verifier consumes them.
//!
//! Evaluation is layer-at-a-time and iterative: each layer's full value
//! vector is computed once from the previous layer's already-computed
//! vector, so shared fan-in is never recomputed, however high the fan-out.

use crate::errors::BuildError;
use crate::field::Fe;
use crate::field::all_wf;
use crate::field::fadd;
use crate::field::fmul;
use crate::field::vals;
use vstd::prelude::*;

verus! {

/// A gate operator: field addition or multiplication.
#[derive(Clone, Copy, Debug)]
pub enum Op {
    Add,
    Mul,
}

/// One gate: an input value, or the combination of two gates of the
/// previous layer picked by index.
#[derive(Clone, Copy, Debug)]
pub enum Gate {
    Input(Fe),
    Op { left: usize, right: usize, op: Op },
}

/// Wiring of one gate: the two previous-layer indices and the operator.
pub type GateDescription = (usize, usize, Op);

/// Wiring of one layer, gate by gate.
pub type LayerDescription = Vec<GateDescription>;

/// Wiring of every layer past the input layer, input end first.
pub type CircuitDescription = Vec<LayerDescription>;

/// A gate is well formed against the previous layer's length: an input
/// gate holds a canonical value, an operation gate references existing
/// gates. An operation gate is never well formed in the input layer
/// (previous length zero).
pub open spec fn gate_wf(g: Gate, prev_len: int) -> bool {
    match g {
        Gate::Input(v) => v.wf(),
        Gate::Op { left, right, op: _ } => left < prev_len && right < prev_len,
    }
}

/// The value of a gate given the previous layer's values.
pub open spec fn gate_val(g: Gate, prev: Seq<int>) -> int {
    match g {
        Gate::Input(v) => v.val(),
        Gate::Op { left, right, op } => match op {
            Op::Add => fadd(prev[left as int], prev[right as int]),
            Op::Mul => fmul(prev[left as int], prev[right as int]),
        },
    }
}

/// The values of a layer's gates, in gate order.
pub open spec fn layer_vals(gates: Seq<Gate>, prev: Seq<int>) -> Seq<int> {
    Seq::new(gates.len(), |i: int| gate_val(gates[i], prev))
}

impl Gate {
    /// An input gate holding `scalar`.
    pub fn new_input(scalar: Fe) -> (r: Gate)
        ensures
            r == Gate::Input(scalar),
    {
        Gate::Input(scalar)
    }

    /// An operation gate combining the previous layer's gates `left` and
    /// `right`.
    pub fn new_mid(left: usize, right: usize, op: Op) -> (r: Gate)
        ensures
            r == (Gate::Op { left, right, op }),
    {
        Gate::Op { left, right, op }
    }

    /// The value of this gate given the previous layer's values.
    pub fn eval(&self, prev: &Vec<Fe>) -> (r: Fe)
        requires
            gate_wf(*self, prev@.len() as int),
            all_wf(prev@),
        ensures
            r.wf(),
            r.val() == gate_val(*self, vals(prev@)),
    {
        match self {
            Gate::Input(v) => *v,
            Gate::Op { left, right, op } => {
                let a = &prev[*left];
                let b = &prev[*right];
                match op {
                    Op::Add => a.add(b),
                    Op::Mul => a.mul(b),
                }
            },
        }
    }
}

/// An ordered arena of gates sharing one depth.
#[derive(Debug)]
pub struct Layer {
    pub gates: Vec<Gate>,
}

impl Layer {
    /// Every gate is well formed against the previous layer's length.
    pub open spec fn wf(self, prev_len: int) -> bool {
        forall|i: int| 0 <= i < self.gates@.len() ==> gate_wf(#[trigger] self.gates@[i], prev_len)
    }

    /// The input layer: one input gate per scalar, in order.
    pub fn new_input(scalars: Vec<Fe>) -> (r: Layer)
        requires
            all_wf(scalars@),
        ensures
            r.gates@.len() == scalars@.len(),
            forall|i: int| 0 <= i < scalars@.len() ==> r.gates@[i] == Gate::Input(scalars@[i]),
            r.wf(0),
            layer_vals(r.gates@, Seq::<int>::empty()) == vals(scalars@),
    {
        let mut gates: Vec<Gate> = Vec::new();
        let mut i: usize = 0;
        while i < scalars.len()
            invariant
                i <= scalars@.len(),
                all_wf(scalars@),
                gates@.len() == i,
                forall|t: int| 0 <= t < i ==> gates@[t] == Gate::Input(scalars@[t]),
            decreases scalars@.len() - i,
        {
            gates.push(Gate::new_input(scalars[i]));
            i = i + 1;
        }
        let r = Layer { gates };
        proof {
            assert(layer_vals(r.gates@, Seq::<int>::empty()) =~= vals(scalars@));
        }
        r
    }

    /// A layer wired by `desc` into a previous layer of `prev_len` gates.
    /// Every referenced index must exist in the previous layer; an
    /// out-of-range reference fails the build.
    pub fn new_mid(desc: &Vec<GateDescription>, prev_len: usize) -> (r: Result<Layer, BuildError>)
        ensures
            match r {
                Ok(l) => (forall|j: int|
                    0 <= j < desc@.len() ==> (#[trigger] desc@[j]).0 < prev_len && desc@[j].1
                        < prev_len) && l.gates@.len() == desc@.len() && (forall|j: int|
                    0 <= j < desc@.len() ==> #[trigger] l.gates@[j] == (Gate::Op {
                        left: desc@[j].0,
                        right: desc@[j].1,
                        op: desc@[j].2,
                    })) && l.wf(prev_len as int),
                Err(e) => e == BuildError::GateIndexOutOfBounds && exists|j: int|
                    0 <= j < desc@.len() && ((#[trigger] desc@[j]).0 >= prev_len || desc@[j].1
                        >= prev_len),
            },
    {
        let mut gates: Vec<Gate> = Vec::new();
        let mut j: usize = 0;
        while j < desc.len()
            invariant
                j <= desc@.len(),
                gates@.len() == j,
                forall|t: int|
                    0 <= t < j ==> (#[trigger] desc@[t]).0 < prev_len && desc@[t].1 < prev_len,
                forall|t: int|
                    0 <= t < j ==> #[trigger] gates@[t] == (Gate::Op {
                        left: desc@[t].0,
                        right: desc@[t].1,
                        op: desc@[t].2,
                    }),
            decreases desc@.len() - j,
        {
            let (left, right, op) = desc[j];
            if left >= prev_len || right >= prev_len {
                proof {
                    assert(0 <= j < desc@.len() && ((desc@[j as int]).0 >= prev_len
                        || desc@[j as int].1 >= prev_len));
                }
                return Err(BuildError::GateIndexOutOfBounds);
            }
            gates.push(Gate::new_mid(left, right, op));
            j = j + 1;
        }
        let l = Layer { gates };
        proof {
            assert forall|t: int| 0 <= t < l.gates@.len() implies gate_wf(
                #[trigger] l.gates@[t],
                prev_len as int,
            ) by {
                assert(l.gates@[t] == (Gate::Op {
                    left: desc@[t].0,
                    right: desc@[t].1,
                    op: desc@[t].2,
                }));
                assert(desc@[t].0 < prev_len && desc@[t].1 < prev_len);
            }
        }
        Ok(l)
    }

    /// The values of this layer's gates given the previous layer's values.
    pub fn eval(&self, prev: &Vec<Fe>) -> (r: Vec<Fe>)
        requires
            self.wf(prev@.len() as int),
            all_wf(prev@),
        ensures
            all_wf(r@),
            vals(r@) == layer_vals(self.gates@, vals(prev@)),
    {
        let mut out: Vec<Fe> = Vec::new();
        let mut i: usize = 0;
        while i < self.gates.len()
            invariant
                i <= self.gates@.len(),
                self.wf(prev@.len() as int),
                all_wf(prev@),
                out@.len() == i,
                all_wf(out@),
                forall|t: int|
                    0 <= t < i ==> (#[trigger] out@[t]).val() == gate_val(
                        self.gates@[t],
                        vals(prev@),
                    ),
            decreases self.gates@.len() - i,
        {
            let v = self.gates[i].eval(prev);
            out.push(v);
            i = i + 1;
        }
        proof {
            assert(vals(out@) =~= layer_vals(self.gates@, vals(prev@)));
        }
        out
    }
}

/// Every layer is well formed against the next-indexed (previous in
/// dataflow) layer; the input layer, indexed last, holds input gates only.
pub open spec fn circuit_wf(layers: Seq<Layer>) -> bool {
    layers.len() >= 1 && (forall|i: int|
        0 <= i < layers.len() ==> (#[trigger] layers[i]).wf(
            if i == layers.len() - 1 {
                0
            } else {
                layers[i + 1].gates@.len() as int
            },
        ))
}

/// The value vector of layer `i`, computed from the layers below it. Out of
/// range, the empty vector: the input layer reads nothing.
pub open spec fn circuit_vals(layers: Seq<Layer>, i: int) -> Seq<int>
    decreases layers.len() - i,
{
    if 0 <= i < layers.len() {
        layer_vals(layers[i].gates@, circuit_vals(layers, i + 1))
    } else {
        Seq::empty()
    }
}

/// The size of the layer that layer `d` of a circuit description is wired
/// into: the input vector for the first described layer, the previous
/// described layer otherwise.
pub open spec fn layer_input_size(input_len: int, desc: Seq<LayerDescription>, d: int) -> int {
    if d == 0 {
        input_len
    } else {
        desc[d - 1]@.len() as int
    }
}

/// Every gate description references existing gates of its previous layer.
pub open spec fn desc_ok(input_len: int, desc: Seq<LayerDescription>) -> bool {
    forall|d: int, j: int|
        0 <= d < desc.len() && 0 <= j < desc[d]@.len() ==> ((#[trigger] desc[d]@[j]).0
            < layer_input_size(input_len, desc, d) && desc[d]@[j].1 < layer_input_size(
            input_len,
            desc,
            d,
        ))
}

/// Validates every gate reference of a circuit description against the
/// layer sizes the description implies.
fn check_desc(input_len: usize, desc: &Vec<LayerDescription>) -> (r: Result<(), BuildError>)
    ensures
        match r {
            Ok(()) => desc_ok(input_len as int, desc@),
            Err(e) => e == BuildError::GateIndexOutOfBounds && !desc_ok(input_len as int, desc@),
        },
{
    let mut d: usize = 0;
    while d < desc.len()
        invariant
            d <= desc@.len(),
            forall|t: int, j: int|
                0 <= t < d && 0 <= j < desc@[t]@.len() ==> ((#[trigger] desc@[t]@[j]).0
                    < layer_input_size(input_len as int, desc@, t) && desc@[t]@[j].1
                    < layer_input_size(input_len as int, desc@, t)),
        decreases desc@.len() - d,
    {
        let prev_len = if d == 0 {
            input_len
        } else {
            desc[d - 1].len()
        };
        let mut j: usize = 0;
        while j < desc[d].len()
            invariant
                d < desc@.len(),
                prev_len == layer_input_size(input_len as int, desc@, d as int),
                j <= desc@[d as int]@.len(),
                forall|t: int|
                    0 <= t < j ==> ((#[trigger] desc@[d as int]@[t]).0 < prev_len
                        && desc@[d as int]@[t].1 < prev_len),
            decreases desc@[d as int]@.len() - j,
        {
            let gd = desc[d][j];
            if gd.0 >= prev_len || gd.1 >= prev_len {
                proof {
                    assert(!((desc@[d as int]@[j as int]).0 < layer_input_size(
                        input_len as int,
                        desc@,
                        d as int,
                    ) && desc@[d as int]@[j as int].1 < layer_input_size(
                        input_len as int,
                        desc@,
                        d as int,
                    )));
                }
                return Err(BuildError::GateIndexOutOfBounds);
            }
            j = j + 1;
        }
        d = d + 1;
    }
    Ok(())
}

/// A layered circuit, output layer first.
#[derive(Debug)]
pub struct Circuit {
    pub layers: Vec<Layer>,
}

impl Circuit {
    /// The circuit's invariant.
    pub open spec fn wf(self) -> bool {
        circuit_wf(self.layers@)
    }

    /// Builds a circuit from input values and, per subsequent layer, the
    /// wiring into the previous layer. Layers are built input-first and
    /// stored reversed, so index 0 is the output layer and the last index
    /// the input layer. Every referenced gate index is validated eagerly:
    /// on an out-of-range reference nothing is built.
    pub fn new(inputs: Vec<Fe>, desc: CircuitDescription) -> (r: Result<Circuit, BuildError>)
        requires
            all_wf(inputs@),
        ensures
            match r {
                Ok(c) => c.wf() && desc_ok(inputs@.len() as int, desc@) && c.layers@.len()
                    == desc@.len() + 1 && c.layers@[desc@.len() as int].gates@.len()
                    == inputs@.len() && (forall|i: int|
                    0 <= i < inputs@.len() ==> c.layers@[desc@.len() as int].gates@[i]
                        == Gate::Input(inputs@[i])) && (forall|d: int, j: int|
                    0 <= d < desc@.len() && 0 <= j < desc@[d]@.len()
                        ==> c.layers@[desc@.len() - 1 - d].gates@[j] == (Gate::Op {
                        left: (#[trigger] desc@[d]@[j]).0,
                        right: desc@[d]@[j].1,
                        op: desc@[d]@[j].2,
                    })),
                Err(e) => e == BuildError::GateIndexOutOfBounds && !desc_ok(
                    inputs@.len() as int,
                    desc@,
                ),
            },
    {
        let input_len = inputs.len();
        match check_desc(input_len, &desc) {
            Ok(()) => {},
            Err(e) => {
                return Err(e);
            },
        }
        let ghost inputs0 = inputs@;
        let mut built: Vec<Layer> = Vec::new();
        built.push(Layer::new_input(inputs));
        let mut d: usize = 0;
        while d < desc.len()
            invariant
                d <= desc@.len(),
                desc_ok(input_len as int, desc@),
                built@.len() == d + 1,
                input_len == built@[0].gates@.len(),
                forall|t: int|
                    0 <= t <= d ==> (#[trigger] built@[t]).gates@.len() == layer_input_size(
                        input_len as int,
                        desc@,
                        t,
                    ),
                built@[0].wf(0),
                forall|t: int|
                    1 <= t <= d ==> (#[trigger] built@[t]).wf(built@[t - 1].gates@.len() as int),
                forall|i: int|
                    0 <= i < inputs0.len() ==> #[trigger] built@[0].gates@[i] == Gate::Input(
                        inputs0[i],
                    ),
                forall|t: int, j: int|
                    1 <= t <= d && 0 <= j < desc@[t - 1]@.len() ==> #[trigger] built@[t].gates@[j]
                        == (Gate::Op {
                        left: desc@[t - 1]@[j].0,
                        right: desc@[t - 1]@[j].1,
                        op: desc@[t - 1]@[j].2,
                    }),
                forall|t: int, j: int|
                    0 <= t < d && 0 <= j < desc@[t]@.len() ==> ((#[trigger] desc@[t]@[j]).0
                        < layer_input_size(input_len as int, desc@, t) && desc@[t]@[j].1
                        < layer_input_size(input_len as int, desc@, t)),
                forall|t: int|
                    1 <= t <= d ==> (#[trigger] built@[t]).gates@.len() == desc@[t - 1]@.len(),
            decreases desc@.len() - d,
        {
            let prev_len = built[d].gates.len();
            match Layer::new_mid(&desc[d], prev_len) {
                Ok(l) => {
                    built.push(l);
                },
                Err(e) => {
                    proof {
                        let jbad = choose|j: int|
                            0 <= j < desc@[d as int]@.len() && ((#[trigger] desc@[d as int]@[j]).0
                                >= prev_len || desc@[d as int]@[j].1 >= prev_len);
                        assert(desc@[d as int]@[jbad].0 >= prev_len || desc@[d as int]@[jbad].1
                            >= prev_len);
                        assert(layer_input_size(input_len as int, desc@, d as int) == prev_len);
                        assert(false);
                    }
                    return Err(e);
                },
            }
            d = d + 1;
        }
        let ghost borig = built@;
        let total = built.len();
        let mut layers: Vec<Layer> = Vec::new();
        while layers.len() < total
            invariant
                borig.len() == total,
                layers@.len() + built@.len() == total,
                built@ == borig.take(built@.len() as int),
                forall|t: int| 0 <= t < layers@.len() ==> layers@[t] == borig[total - 1 - t],
            decreases total - layers@.len(),
        {
            match built.pop() {
                Some(l) => {
                    proof {
                        assert(borig.take(built@.len() as int + 1).last() == borig[built@.len() as int]);
                        assert(borig.take(built@.len() as int + 1).drop_last() =~= borig.take(
                            built@.len() as int,
                        ));
                    }
                    layers.push(l);
                },
                None => {
                    proof {
                        assert(false);
                    }
                },
            }
        }
        let c = Circuit { layers };
        proof {
            assert forall|i: int| 0 <= i < c.layers@.len() implies (#[trigger] c.layers@[i]).wf(
                if i == c.layers@.len() - 1 {
                    0
                } else {
                    c.layers@[i + 1].gates@.len() as int
                },
            ) by {
                assert(c.layers@[i] == borig[total - 1 - i]);
                if i < c.layers@.len() - 1 {
                    assert(c.layers@[i + 1] == borig[total - 2 - i]);
                }
            }
        }
        Ok(c)
    }

    /// The value vectors of every layer, output layer first.
    #[verifier::rlimit(50)]
    pub fn eval(&self) -> (r: Vec<Vec<Fe>>)
        requires
            self.wf(),
        ensures
            r@.len() == self.layers@.len(),
            forall|i: int| 0 <= i < r@.len() ==> all_wf((#[trigger] r@[i])@),
            forall|i: int|
                0 <= i < r@.len() ==> vals((#[trigger] r@[i])@) == circuit_vals(self.layers@, i),
    {
        let n = self.layers.len();
        let mut rev: Vec<Vec<Fe>> = Vec::new();
        let mut j: usize = 0;
        while j < n
            invariant
                j <= n,
                n == self.layers@.len(),
                self.wf(),
                rev@.len() == j,
                forall|t: int| 0 <= t < j ==> all_wf((#[trigger] rev@[t])@),
                forall|t: int|
                    0 <= t < j ==> vals((#[trigger] rev@[t])@) == circuit_vals(
                        self.layers@,
                        n - 1 - t,
                    ),
            decreases n - j,
        {
            let li = n - 1 - j;
            proof {
                assert(circuit_vals(self.layers@, li as int) == layer_vals(
                    self.layers@[li as int].gates@,
                    circuit_vals(self.layers@, li as int + 1),
                ));
            }
            let v = if j == 0 {
                let empty_prev: Vec<Fe> = Vec::new();
                proof {
                    assert(vals(empty_prev@) =~= Seq::<int>::empty());
                    assert(circuit_vals(self.layers@, n as int) == Seq::<int>::empty());
                }
                self.layers[li].eval(&empty_prev)
            } else {
                proof {
                    assert(circuit_vals(self.layers@, li + 1).len() == self.layers@[li
                        + 1].gates@.len());
                    assert(rev@[j - 1]@.len() == vals(rev@[j - 1]@).len());
                }
                self.layers[li].eval(&rev[j - 1])
            };
            proof {
                assert(vals(v@) == circuit_vals(self.layers@, li as int));
            }
            rev.push(v);
            j = j + 1;
        }
        let ghost rvorig = rev@;
        let mut out: Vec<Vec<Fe>> = Vec::new();
        while out.len() < n
            invariant
                rvorig.len() == n,
                out@.len() + rev@.len() == n,
                rev@ == rvorig.take(rev@.len() as int),
                forall|t: int| 0 <= t < out@.len() ==> out@[t] == rvorig[n - 1 - t],
            decreases n - out@.len(),
        {
            match rev.pop() {
                Some(v) => {
                    proof {
                        assert(rvorig.take(rev@.len() as int + 1).last() == rvorig[rev@.len() as int]);
                        assert(rvorig.take(rev@.len() as int + 1).drop_last() =~= rvorig.take(
                            rev@.len() as int,
                        ));
                    }
                    out.push(v);
                },
                None => {
                    proof {
                        assert(false);
                    }
                },
            }
        }
        out
    }

    /// The value vector of the layer at `index` alone, still computed one
    /// layer at a time from the input layer up.
    #[verifier::rlimit(50)]
    pub fn eval_layer(&self, index: usize) -> (r: Vec<Fe>)
        requires
            self.wf(),
            index < self.layers@.len(),
        ensures
            all_wf(r@),
            vals(r@) == circuit_vals(self.layers@, index as int),
    {
        let n = self.layers.len();
        let empty_prev: Vec<Fe> = Vec::new();
        proof {
            assert(vals(empty_prev@) =~= Seq::<int>::empty());
        }
        let mut cur = self.layers[n - 1].eval(&empty_prev);
        let mut li = n - 1;
        while li > index
            invariant
                index <= li < n,
                n == self.layers@.len(),
                self.wf(),
                all_wf(cur@),
                vals(cur@) == circuit_vals(self.layers@, li as int),
            decreases li,
        {
            li = li - 1;
            proof {
                assert(circuit_vals(self.layers@, li as int) == layer_vals(
                    self.layers@[li as int].gates@,
                    circuit_vals(self.layers@, li as int + 1),
                ));
                assert(circuit_vals(self.layers@, li + 1).len() == self.layers@[li
                    + 1].gates@.len());
                assert(cur@.len() == vals(cur@).len());
            }
            cur = self.layers[li].eval(&cur);
        }
        cur
    }
}

/// Circuit evaluation is deterministic: the layer value vectors are a
/// function of the circuit alone, so re-evaluating an unchanged circuit
/// yields identical vectors every time.
pub proof fn lemma_eval_deterministic(c: Circuit, a: Seq<Seq<int>>, b: Seq<Seq<int>>)
    requires
        a.len() == c.layers@.len(),
        b.len() == c.layers@.len(),
        forall|i: int| 0 <= i < a.len() ==> a[i] == circuit_vals(c.layers@, i),
        forall|i: int| 0 <= i < b.len() ==> b[i] == circuit_vals(c.layers@, i),
    ensures
        a == b,
{
    assert(a =~= b);
}

} // verus!
