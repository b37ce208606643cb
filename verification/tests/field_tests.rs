use sumcheck_gkr::field::Fe;
use sumcheck_gkr::poly::MultivariatePolynomial;

#[test]
fn field_operations() {
    let three = Fe::from_u64(3);
    let four = Fe::from_u64(4);
    assert_eq!(three.add(&four), Fe::from_u64(7));
    assert_eq!(three.mul(&four), Fe::from_u64(12));
    assert_eq!(Fe::from_u64(10).sub(&four), Fe::from_u64(6));
    assert_eq!(three.add(&Fe::zero()), three);
    assert_eq!(three.mul(&Fe::one()), three);
    assert_eq!(three.pow(0), Fe::one());
    assert_eq!(three.pow(4), Fe::from_u64(81));
}

#[test]
fn subtraction_wraps_to_the_field_order() {
    // 0 - 1 is the field order minus one: the largest canonical residue.
    let minus_one = Fe::zero().sub(&Fe::one());
    assert_eq!(minus_one.add(&Fe::one()), Fe::zero());
    let limbs = minus_one.limbs();
    assert_eq!(
        limbs,
        (
            0xffff_ffff_0000_0000,
            0x53bd_a402_fffe_5bfe,
            0x3339_d808_09a1_d805,
            0x73ed_a753_299d_7d48,
        )
    );
}

#[test]
fn limbs_round_trip() {
    let v = Fe::from_u64(123456789).mul(&Fe::from_u64(987654321)).pow(3);
    let (l0, l1, l2, l3) = v.limbs();
    assert_eq!(Fe::from_limbs(l0, l1, l2, l3), Some(v));
    // The field order itself is not a canonical residue.
    assert_eq!(
        Fe::from_limbs(
            0xffff_ffff_0000_0001,
            0x53bd_a402_fffe_5bfe,
            0x3339_d808_09a1_d805,
            0x73ed_a753_299d_7d48,
        ),
        None
    );
}

#[test]
fn negative_coefficients_evaluate() {
    // g(x, y) = 3 - y - xy, written with the additive inverse of one.
    let minus_one = Fe::zero().sub(&Fe::one());
    let poly = MultivariatePolynomial::build(
        2,
        vec![
            (Fe::from_u64(3), vec![(0, 0)]),
            (minus_one, vec![(1, 1)]),
            (minus_one, vec![(0, 1), (1, 1)]),
        ],
    )
    .unwrap();
    let at = |x: u64, y: u64| poly.evaluate(&vec![Fe::from_u64(x), Fe::from_u64(y)]);
    assert_eq!(at(0, 0), Fe::from_u64(3));
    assert_eq!(at(0, 1), Fe::from_u64(2));
    assert_eq!(at(1, 0), Fe::from_u64(3));
    assert_eq!(at(1, 1), Fe::from_u64(1));
    // g(2, 3) = 3 - 3 - 6 = -6.
    assert_eq!(at(2, 3), Fe::zero().sub(&Fe::from_u64(6)));
}
