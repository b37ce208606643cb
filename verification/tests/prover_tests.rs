use sumcheck_gkr::errors::BuildError;
use sumcheck_gkr::errors::ProtocolError;
use sumcheck_gkr::field::Fe;
use sumcheck_gkr::poly::MultivariatePolynomial;
use sumcheck_gkr::prover::Prover;
use sumcheck_gkr::utils::binary_inputs;
use sumcheck_gkr::utils::sum_binary_evals;

/// The three-variable polynomial `g(x, y, z) = 2x^3 + xz + yz` of the
/// end-to-end sum-check scenario: variable 0 is `x`, 1 is `y`, 2 is `z`.
fn scenario_poly() -> MultivariatePolynomial {
    MultivariatePolynomial::build(
        3,
        vec![
            (Fe::from_u64(2), vec![(0, 3)]),
            (Fe::from_u64(1), vec![(0, 1), (2, 1)]),
            (Fe::from_u64(1), vec![(1, 1), (2, 1)]),
        ],
    )
    .unwrap()
}

#[test]
fn prover_simple_prover() {
    let poly = scenario_poly();
    let mut prover = Prover::new(poly);

    assert_eq!(Fe::from_u64(12), prover.init_poly_sum());

    let unipoly = prover.next_unipoly().unwrap();
    assert_eq!(Fe::one(), unipoly.evaluate(&Fe::zero()));
    assert_eq!(Fe::from_u64(11), unipoly.evaluate(&Fe::one()));
    assert_eq!(Fe::from_u64(69), unipoly.evaluate(&Fe::from_u64(2)));

    prover.register_challenge(Fe::from_u64(2)).unwrap();

    let unipoly = prover.next_unipoly().unwrap();
    assert_eq!(Fe::from_u64(34), unipoly.evaluate(&Fe::zero()));
    assert_eq!(Fe::from_u64(35), unipoly.evaluate(&Fe::one()));

    prover.register_challenge(Fe::from_u64(3)).unwrap();

    let unipoly = prover.next_unipoly().unwrap();
    assert_eq!(Fe::from_u64(16), unipoly.evaluate(&Fe::zero()));
    assert_eq!(Fe::from_u64(21), unipoly.evaluate(&Fe::one()));

    prover.register_challenge(Fe::from_u64(6)).unwrap();
    assert_eq!(Fe::from_u64(46), prover.evaluate().unwrap());
}

#[test]
fn lib_simple_prover() {
    let poly = scenario_poly();
    let mut prover = Prover::new(poly);

    assert_eq!(Fe::from_u64(12), prover.init_poly_sum());

    let unipoly = prover.next_unipoly().unwrap();
    assert_eq!(Fe::one(), unipoly.evaluate(&Fe::zero()));
    assert_eq!(Fe::from_u64(11), unipoly.evaluate(&Fe::one()));
    assert_eq!(Fe::from_u64(69), unipoly.evaluate(&Fe::from_u64(2)));

    prover.register_challenge(Fe::from_u64(2)).unwrap();

    let unipoly = prover.next_unipoly().unwrap();
    assert_eq!(Fe::from_u64(34), unipoly.evaluate(&Fe::zero()));
    assert_eq!(Fe::from_u64(35), unipoly.evaluate(&Fe::one()));

    prover.register_challenge(Fe::from_u64(3)).unwrap();

    let unipoly = prover.next_unipoly().unwrap();
    assert_eq!(Fe::from_u64(16), unipoly.evaluate(&Fe::zero()));
    assert_eq!(Fe::from_u64(21), unipoly.evaluate(&Fe::one()));

    prover.register_challenge(Fe::from_u64(6)).unwrap();
    assert_eq!(Fe::from_u64(46), prover.evaluate().unwrap());
}

#[test]
fn binary_inputs_works() {
    assert_eq!(binary_inputs(0), vec![Vec::<Fe>::new()]);
    assert_eq!(binary_inputs(1), vec![vec![Fe::zero()], vec![Fe::one()]]);
    assert_eq!(
        binary_inputs(2),
        vec![
            vec![Fe::zero(), Fe::zero()],
            vec![Fe::one(), Fe::zero()],
            vec![Fe::zero(), Fe::one()],
            vec![Fe::one(), Fe::one()],
        ]
    );

    assert_eq!(
        binary_inputs(3),
        vec![
            vec![Fe::zero(), Fe::zero(), Fe::zero()], // 0: 000 big endian!
            vec![Fe::one(), Fe::zero(), Fe::zero()],  // 1: 100
            vec![Fe::zero(), Fe::one(), Fe::zero()],  // 2: 010
            vec![Fe::one(), Fe::one(), Fe::zero()],   // 3: 110
            vec![Fe::zero(), Fe::zero(), Fe::one()],  // 4: 001
            vec![Fe::one(), Fe::zero(), Fe::one()],   // 5: 101
            vec![Fe::zero(), Fe::one(), Fe::one()],   // 6: 011
            vec![Fe::one(), Fe::one(), Fe::one()],    // 7: 111
        ]
    );
}

#[test]
fn sum_binary_evals_works() {
    // g(x,y) = 2x + xy + y
    let poly = MultivariatePolynomial::build(
        2,
        vec![
            (Fe::from_u64(2), vec![(0, 1)]),
            (Fe::from_u64(1), vec![(0, 1), (1, 1)]),
            (Fe::from_u64(1), vec![(1, 1)]),
        ],
    )
    .unwrap();
    // g(0,0) = 0
    // g(1,0) = 2
    // g(0,1) = 1
    // g(1,1) = 4
    // sum = 0 + 2 + 1 + 4 = 7
    assert_eq!(sum_binary_evals(&poly), Fe::from_u64(7));
}

#[test]
fn round_sums_match_previous_claim() {
    // In every round, g_k(0) + g_k(1) equals the claim entering the round.
    let mut prover = Prover::new(scenario_poly());
    let claim0 = prover.init_poly_sum();

    let g0 = prover.next_unipoly().unwrap();
    assert_eq!(g0.evaluate(&Fe::zero()).add(&g0.evaluate(&Fe::one())), claim0);

    prover.register_challenge(Fe::from_u64(2)).unwrap();
    let g1 = prover.next_unipoly().unwrap();
    assert_eq!(
        g1.evaluate(&Fe::zero()).add(&g1.evaluate(&Fe::one())),
        g0.evaluate(&Fe::from_u64(2))
    );

    prover.register_challenge(Fe::from_u64(3)).unwrap();
    let g2 = prover.next_unipoly().unwrap();
    assert_eq!(
        g2.evaluate(&Fe::zero()).add(&g2.evaluate(&Fe::one())),
        g1.evaluate(&Fe::from_u64(3))
    );
}

#[test]
fn final_evaluation_matches_last_round() {
    // After the last challenge, evaluate() equals the last round polynomial
    // at that challenge.
    let mut prover = Prover::new(scenario_poly());
    prover.register_challenge(Fe::from_u64(2)).unwrap();
    prover.register_challenge(Fe::from_u64(3)).unwrap();
    let g2 = prover.next_unipoly().unwrap();
    prover.register_challenge(Fe::from_u64(6)).unwrap();
    assert_eq!(prover.evaluate().unwrap(), g2.evaluate(&Fe::from_u64(6)));
}

#[test]
fn protocol_state_errors() {
    let mut prover = Prover::new(scenario_poly());
    // Too early: not every variable is bound yet.
    assert_eq!(prover.evaluate().unwrap_err(), ProtocolError::RoundsIncomplete);
    prover.register_challenge(Fe::from_u64(1)).unwrap();
    prover.register_challenge(Fe::from_u64(2)).unwrap();
    prover.register_challenge(Fe::from_u64(3)).unwrap();
    // Too late: the protocol is complete.
    assert_eq!(
        prover.next_unipoly().unwrap_err(),
        ProtocolError::RoundsExhausted
    );
    assert_eq!(
        prover.register_challenge(Fe::from_u64(4)).unwrap_err(),
        ProtocolError::RoundsExhausted
    );
    assert!(prover.evaluate().is_ok());
}

#[test]
fn build_rejects_out_of_range_variable() {
    // A term referencing variable index 3 in a 3-variable polynomial.
    let r = MultivariatePolynomial::build(
        3,
        vec![
            (Fe::from_u64(2), vec![(0, 3)]),
            (Fe::from_u64(1), vec![(3, 1)]),
        ],
    );
    assert_eq!(r.unwrap_err(), BuildError::VariableIndexOutOfBounds);
    // Index equal to the count is the first invalid one; one past is too.
    let r = MultivariatePolynomial::build(0, vec![(Fe::one(), vec![(0, 1)])]);
    assert_eq!(r.unwrap_err(), BuildError::VariableIndexOutOfBounds);
}

#[test]
fn constant_polynomial_protocol() {
    // Zero variables: the opening claim is the constant itself, no round
    // polynomial is owed, and evaluation needs no challenge.
    let poly = MultivariatePolynomial::build(0, vec![(Fe::from_u64(5), vec![])]).unwrap();
    let prover = Prover::new(poly);
    assert_eq!(prover.init_poly_sum(), Fe::from_u64(5));
    assert_eq!(
        prover.next_unipoly().unwrap_err(),
        ProtocolError::RoundsExhausted
    );
    assert_eq!(prover.evaluate().unwrap(), Fe::from_u64(5));
}

#[test]
fn term_normalization() {
    // Duplicate mentions of a variable multiply together: x * x^2 == x^3,
    // and a zero exponent is an implicit factor of one.
    let poly = MultivariatePolynomial::build(
        1,
        vec![(Fe::from_u64(1), vec![(0, 1), (0, 2)])],
    )
    .unwrap();
    let mut prover = Prover::new(poly);
    prover.register_challenge(Fe::from_u64(2)).unwrap();
    assert_eq!(prover.evaluate().unwrap(), Fe::from_u64(8));

    let constant = MultivariatePolynomial::build(2, vec![(Fe::from_u64(3), vec![(0, 0)])]).unwrap();
    assert_eq!(sum_binary_evals(&constant), Fe::from_u64(12));
}
