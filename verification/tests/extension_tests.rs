// The dense multilinear-extension representation itself is `ark-poly`'s;
// these tests pin down the evaluation-numbering convention it shares with
// the library (lowest variable in the lowest bit) and check the library's
// sparse polynomial against it on common points.

use ark_bls12_381::Fr;
use ark_ff::PrimeField;
use ark_poly::DenseMultilinearExtension;
use ark_poly::Polynomial;
use sumcheck_gkr::field::Fe;
use sumcheck_gkr::poly::MultivariatePolynomial;

fn fr_to_fe(v: Fr) -> Fe {
    let limbs = v.into_bigint().0;
    Fe::from_limbs(limbs[0], limbs[1], limbs[2], limbs[3]).unwrap()
}

#[test]
fn multilinear_extension() {
    let num_vars = 2_usize;
    let evaluations = vec![Fr::from(1), Fr::from(2), Fr::from(1), Fr::from(4)];

    let extension_poly = DenseMultilinearExtension::from_evaluations_vec(num_vars, evaluations);

    // columns, rows
    assert_eq!(
        extension_poly.evaluate(&vec![Fr::from(0), Fr::from(0)]),
        Fr::from(1)
    );
    assert_eq!(
        extension_poly.evaluate(&vec![Fr::from(1), Fr::from(0)]),
        Fr::from(2)
    );
    assert_eq!(
        extension_poly.evaluate(&vec![Fr::from(0), Fr::from(1)]),
        Fr::from(1)
    );
    assert_eq!(
        extension_poly.evaluate(&vec![Fr::from(1), Fr::from(1)]),
        Fr::from(4)
    );

    assert_eq!(
        extension_poly.evaluate(&vec![Fr::from(2), Fr::from(0)]),
        Fr::from(3)
    );
    assert_eq!(
        extension_poly.evaluate(&vec![Fr::from(3), Fr::from(0)]),
        Fr::from(4)
    );
}

#[test]
fn another_multilinear_extension() {
    let num_vars = 2_usize;
    // NOTE MUST be in LITTLE ENDIAN FORM
    // 0 = 00 => w(0,0) = 3
    // 1 = 10 => w(1,0) = 3
    // 2 = 01 => w(0,1) = 2
    // 3 = 11 => w(1,1) = 1
    let evaluations = vec![Fr::from(3), Fr::from(3), Fr::from(2), Fr::from(1)];
    let extension_poly = DenseMultilinearExtension::from_evaluations_vec(num_vars, evaluations);

    // g(x, y) = 3(1 - x)(1 - y) + 2(1 - x)y + 3x(1 - y) + xy
    // g(x, y) = 3 - y - xy
    let minus_one = Fe::zero().sub(&Fe::one());
    let poly = MultivariatePolynomial::build(
        2,
        vec![
            (Fe::from_u64(3), vec![(0, 0)]),
            (minus_one, vec![(1, 1)]),
            (minus_one, vec![(0, 1), (1, 1)]),
        ],
    )
    .unwrap();

    assert_eq!(
        poly.evaluate(&vec![Fe::from_u64(0), Fe::from_u64(0)]),
        Fe::from_u64(3)
    );
    assert_eq!(
        poly.evaluate(&vec![Fe::from_u64(0), Fe::from_u64(1)]),
        Fe::from_u64(2)
    );
    assert_eq!(
        poly.evaluate(&vec![Fe::from_u64(1), Fe::from_u64(0)]),
        Fe::from_u64(3)
    );
    assert_eq!(
        poly.evaluate(&vec![Fe::from_u64(1), Fe::from_u64(1)]),
        Fe::from_u64(1)
    );
    assert_eq!(
        poly.evaluate(&vec![Fe::from_u64(2), Fe::from_u64(3)]),
        Fe::zero().sub(&Fe::from_u64(6))
    );

    // poly and its extension representation should evaluate to the same value
    let input = vec![Fr::from(1), Fr::from(2)];
    assert_eq!(
        poly.evaluate(&vec![Fe::from_u64(1), Fe::from_u64(2)]),
        fr_to_fe(extension_poly.evaluate(&input))
    );
    let input = vec![Fr::from(2), Fr::from(1)];
    assert_eq!(
        poly.evaluate(&vec![Fe::from_u64(2), Fe::from_u64(1)]),
        fr_to_fe(extension_poly.evaluate(&input))
    );
    let input = vec![Fr::from(9), Fr::from(111)];
    assert_eq!(
        poly.evaluate(&vec![Fe::from_u64(9), Fe::from_u64(111)]),
        fr_to_fe(extension_poly.evaluate(&input))
    );
}
