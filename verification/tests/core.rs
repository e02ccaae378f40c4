use lie::lie_algebra::find_structure_constants;
use lie::matrix::Matrix;
use lie::spherical::hermitian_basis_from_spin;
use lie::sylvester::gen_sylvester;
use num_complex::Complex64;

use std::f64::consts::PI;

fn to_array(m: &Matrix) -> ndarray::Array2<Complex64> {
    let n = m.size();
    let mut a = ndarray::Array2::zeros((n, n));
    for r in 0..n {
        for c in 0..n {
            a[[r, c]] = m.get(r, c);
        }
    }
    a
}

#[test]
fn test_sylv() {
    let _x = gen_sylvester(3);
}

#[test]
fn check_clifford_algebra() {
    let d = 3.;

    let j = (d - 1.) / 2.;
    let two_j = (2. * j) as usize;
    let basis = hermitian_basis_from_spin(two_j);

    let algebra = Complex64::new(0., 2. * PI / d).exp();
    println!("{}", algebra);

    let eps = Complex64::new(1e-5, 0.);
    for (i, a) in basis.iter().enumerate() {
        for (j, b) in basis.iter().enumerate() {
            if i == j {
                continue;
            }
            let prod_ab = a.matmul(b);
            let prod_ba = b.matmul(a);

            let approx = prod_ab.approx_eq(&prod_ba, &eps);
            println!(
                "{} {}\n{}\n{}\n{}\n=======",
                i,
                j,
                to_array(&prod_ab),
                to_array(&prod_ba),
                approx
            );
        }
    }
}

#[test]
fn test_hermitian() {
    let basis = hermitian_basis_from_spin(2);

    let eps = Complex64::new(1e-8, 0.);
    for b in &basis {
        let conj = b.conj_transpose();
        let approx = b.approx_eq(&conj, &eps);
        assert!(approx, "The matrices are not Hermitian");
    }
}

#[test]
fn test_commutation() {
    let basis = hermitian_basis_from_spin(1);
    let x = find_structure_constants(&basis).unwrap();
    assert_eq!(x.table.len(), 3 * 2);

    let basis = hermitian_basis_from_spin(2);
    let x = find_structure_constants(&basis).unwrap();
    assert_eq!(x.table.len(), 25 * 2);
}
