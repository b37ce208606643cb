use sumcheck_gkr::circuit::Circuit;
use sumcheck_gkr::circuit::Op;
use sumcheck_gkr::errors::BuildError;
use sumcheck_gkr::field::Fe;

// 1 addition gate (outputs the sum of squares)
// 2 addition gates (adding a^2 + b^2 and c^2 + d^2)
// 4 multiplication gates (squaring each input)
// 4 input gates
#[test]
fn circuit_eval() {
    let desc = vec![
        vec![
            (0, 0, Op::Mul),
            (1, 1, Op::Mul),
            (2, 2, Op::Mul),
            (3, 3, Op::Mul),
        ],
        vec![(0, 1, Op::Add), (2, 3, Op::Add)],
        vec![(0, 1, Op::Add)],
    ];
    let inputs = vec![
        Fe::from_u64(0),
        Fe::from_u64(1),
        Fe::from_u64(2),
        Fe::from_u64(3),
    ];
    let circuit = Circuit::new(inputs.clone(), desc).unwrap();

    let square_evals = vec![
        Fe::from_u64(0),
        Fe::from_u64(1),
        Fe::from_u64(4),
        Fe::from_u64(9),
    ];
    let sum_evals = vec![Fe::from_u64(1), Fe::from_u64(13)];
    let outputs = vec![Fe::from_u64(14)];

    let evals = circuit.eval();
    assert_eq!(
        evals,
        vec![
            outputs.clone(),
            sum_evals.clone(),
            square_evals.clone(),
            inputs.clone(),
        ]
    );

    assert_eq!(circuit.eval_layer(0), outputs);
    assert_eq!(circuit.eval_layer(1), sum_evals);
    assert_eq!(circuit.eval_layer(2), square_evals);
    assert_eq!(circuit.eval_layer(3), inputs);
}

#[test]
fn repeated_evaluation_is_identical() {
    // Evaluation is a pure function of the circuit: re-evaluating an
    // unchanged circuit yields bit-identical layer vectors.
    let desc = vec![
        vec![(0, 1, Op::Mul), (1, 2, Op::Add)],
        vec![(0, 1, Op::Add)],
    ];
    let inputs = vec![Fe::from_u64(7), Fe::from_u64(11), Fe::from_u64(13)];
    let circuit = Circuit::new(inputs, desc).unwrap();
    let first = circuit.eval();
    let second = circuit.eval();
    assert_eq!(first, second);
    for (i, layer) in first.iter().enumerate() {
        assert_eq!(&circuit.eval_layer(i), layer);
    }
}

#[test]
fn new_rejects_out_of_range_gate_index() {
    // The input layer has two gates, so index 2 does not exist.
    let desc = vec![vec![(0, 2, Op::Add)]];
    let inputs = vec![Fe::from_u64(1), Fe::from_u64(2)];
    assert_eq!(
        Circuit::new(inputs, desc).unwrap_err(),
        BuildError::GateIndexOutOfBounds
    );
    // A later layer referencing past its (smaller) previous layer fails too.
    let desc = vec![vec![(0, 1, Op::Add)], vec![(0, 1, Op::Mul)]];
    let inputs = vec![Fe::from_u64(1), Fe::from_u64(2)];
    assert_eq!(
        Circuit::new(inputs, desc).unwrap_err(),
        BuildError::GateIndexOutOfBounds
    );
}

#[test]
fn input_only_circuit() {
    // No wiring at all: the one layer is both input and output.
    let inputs = vec![Fe::from_u64(4), Fe::from_u64(5)];
    let circuit = Circuit::new(inputs.clone(), vec![]).unwrap();
    assert_eq!(circuit.eval(), vec![inputs.clone()]);
    assert_eq!(circuit.eval_layer(0), inputs);
}
