use approx::AbsDiffEq;
use lie::complex::default_tolerance;
use lie::gellmann::{gellmann, gen_gellmann};
use lie::lie_algebra::{
    cross, dot, find_d_coefficients, find_structure_constants, su_anticommutator, su_commutator,
    LieError,
};
use lie::matrix::Matrix;
use lie::spherical::{basis_from_spin, c_g, c_g_p, c_g_z, hermitian_basis_from_spin, q_1_u, q_r_u};
use lie::su2::{gen_sl2, gen_su2, j_m, j_p, s_x, s_y, s_z};
use lie::sylvester::gen_sylvester;
use num_complex::Complex64;

fn c(re: f64, im: f64) -> Complex64 {
    Complex64::new(re, im)
}

fn indicator(len: usize, at: usize) -> Vec<Complex64> {
    let mut v = vec![c(0., 0.); len];
    v[at] = c(1., 0.);
    v
}

#[test]
fn gellmann_basis_counts_and_shapes() {
    for d in 1..6usize {
        let v = gen_gellmann(d).unwrap();
        assert_eq!(v.len(), d * d - 1);
        for m in &v {
            assert_eq!(m.size(), d);
        }
    }
}

#[test]
fn spherical_basis_counts() {
    // n^2 - 1 Hermitian operators for an n-level representation.
    assert_eq!(hermitian_basis_from_spin(1).len(), 3);
    assert_eq!(hermitian_basis_from_spin(2).len(), 8);
    assert_eq!(hermitian_basis_from_spin(3).len(), 15);
}

#[test]
fn gellmann_entries_exact() {
    // The symmetric element for (2, 1) in dimension 2 has ones off-diagonal.
    let m = gellmann(2, 1, 2);
    assert!(m.get(0, 1).abs_diff_eq(&c(1., 0.), 1e-12));
    assert!(m.get(1, 0).abs_diff_eq(&c(1., 0.), 1e-12));
    assert!(m.get(0, 0).abs_diff_eq(&c(0., 0.), 1e-12));

    // The antisymmetric element for (1, 2) carries -i and +i.
    let m = gellmann(1, 2, 2);
    assert!(m.get(0, 1).abs_diff_eq(&c(0., -1.), 1e-12));
    assert!(m.get(1, 0).abs_diff_eq(&c(0., 1.), 1e-12));

    // The diagonal element for (1, 1) in dimension 2 is diag(1, -1).
    let m = gellmann(1, 1, 2);
    assert!(m.get(0, 0).abs_diff_eq(&c(1., 0.), 1e-12));
    assert!(m.get(1, 1).abs_diff_eq(&c(-1., 0.), 1e-12));

    // The basis multiplies everything by i.
    let v = gen_gellmann(2).unwrap();
    assert!(v[2].get(0, 1).abs_diff_eq(&c(0., 1.), 1e-12));
    assert!(v[0].get(0, 0).abs_diff_eq(&c(0., 1.), 1e-12));
}

#[test]
fn spin_operator_entries() {
    // Spin 1/2: raising operator has sqrt(1) on the superdiagonal.
    let jp = j_p(1);
    assert!(jp.get(0, 1).abs_diff_eq(&c(1., 0.), 1e-12));
    let jm = j_m(1);
    assert!(jm.get(1, 0).abs_diff_eq(&c(1., 0.), 1e-12));

    // Spin 1/2: s_z = diag(1/2, -1/2).
    let sz = s_z(1);
    assert!(sz.get(0, 0).abs_diff_eq(&c(0.5, 0.), 1e-12));
    assert!(sz.get(1, 1).abs_diff_eq(&c(-0.5, 0.), 1e-12));

    // Spin 1: the raising operator carries sqrt(2).
    let jp = j_p(2);
    assert!(jp.get(0, 1).abs_diff_eq(&c(2f64.sqrt(), 0.), 1e-12));
    assert!(jp.get(1, 2).abs_diff_eq(&c(2f64.sqrt(), 0.), 1e-12));

    // s_x and s_y are the half combinations.
    let sx = s_x(1);
    assert!(sx.get(0, 1).abs_diff_eq(&c(0.5, 0.), 1e-12));
    assert!(sx.get(1, 0).abs_diff_eq(&c(0.5, 0.), 1e-12));
    let sy = s_y(1);
    assert!(sy.get(0, 1).abs_diff_eq(&c(0.5, 0.), 1e-12));
    assert!(sy.get(1, 0).abs_diff_eq(&c(-0.5, 0.), 1e-12));

    let su2 = gen_su2(1);
    assert_eq!(su2.len(), 3);
    assert!(su2[0].get(0, 0).abs_diff_eq(&c(0.5, 0.), 1e-12));
    let sl2 = gen_sl2(1);
    assert_eq!(sl2.len(), 3);
    assert!(sl2[1].get(0, 1).abs_diff_eq(&c(1., 0.), 1e-12));
}

#[test]
fn sylvester_clock_and_shift_entries() {
    // For d = 2 the root of unity is -1: the elements are the shift
    // (a permutation), the clock diag(1, -1), and their product.
    let v = gen_sylvester(2).unwrap();
    assert_eq!(v.len(), 3);
    // v[0] = shift: ones at (1, 0) and (0, 1).
    assert!(v[0].get(1, 0).abs_diff_eq(&c(1., 0.), 1e-8));
    assert!(v[0].get(0, 1).abs_diff_eq(&c(1., 0.), 1e-8));
    // v[1] = clock: diag(1, e^{i pi}) = diag(1, -1).
    assert!(v[1].get(0, 0).abs_diff_eq(&c(1., 0.), 1e-8));
    assert!(v[1].get(1, 1).abs_diff_eq(&c(-1., 0.), 1e-8));
    assert!(v[1].get(0, 1).abs_diff_eq(&c(0., 0.), 1e-8));
}

#[test]
fn clebsch_gordan_values() {
    // c_g_p(1, 0) = sqrt(6/6) / sqrt(2).
    let x = c_g_p(1, 0);
    assert!(x.abs_diff_eq(&c(1. / 2f64.sqrt(), 0.), 1e-12));
    // c_g_z(1, 0) = sqrt(4/6).
    let x = c_g_z(1, 0);
    assert!(x.abs_diff_eq(&c((4f64 / 6.).sqrt(), 0.), 1e-12));
    // c_g dispatches on the coupled projection.
    let x = c_g(1, 0, 0);
    assert!(x.abs_diff_eq(&c((4f64 / 6.).sqrt(), 0.), 1e-12));
}

#[test]
fn rank_one_tensor_is_spin_observable() {
    let eps = c(1e-12, 0.);
    assert!(q_1_u(2, 0).approx_eq(&s_z(2), &eps));
    assert!(q_r_u(2, 1, 0).approx_eq(&s_z(2), &eps));
    // The raw spherical basis opens with the three rank-1 observables.
    let raw = basis_from_spin(2);
    assert!(raw[1].approx_eq(&s_z(2), &eps));
    // Rank 2 operators exist for spin 1 and have the right shape.
    assert_eq!(q_r_u(2, 2, 1).size(), 3);
}

#[test]
fn cross_basis_consistency_d2() {
    // The Gell-Mann and the Sylvester bases of su(2) close the same way:
    // the same number of nonzero brackets.
    let g = gen_gellmann(2).unwrap();
    let xg = find_structure_constants(&g).unwrap();
    let s = gen_sylvester(2).unwrap();
    let xs = find_structure_constants(&s).unwrap();
    assert_eq!(xg.table.len(), 6);
    assert_eq!(xs.table.len(), xg.table.len());
    assert!(xg.degenerate_pairs.is_empty());
    assert!(xs.degenerate_pairs.is_empty());
}

#[test]
fn self_bracket_absent() {
    let g = gen_gellmann(3).unwrap();
    let x = find_structure_constants(&g).unwrap();
    for i in 0..g.len() {
        assert!(x.table.get(i, i).is_none());
    }
}

#[test]
fn commutator_round_trip() {
    let basis = gen_gellmann(2).unwrap();
    let out = find_structure_constants(&basis).unwrap();
    let eps = c(1e-8, 0.);
    for i in 0..basis.len() {
        for j in 0..basis.len() {
            let e_i = indicator(basis.len(), i);
            let e_j = indicator(basis.len(), j);
            let rebuilt = su_commutator(&e_i, &e_j, &out.table, &basis).unwrap();
            let direct = basis[i].matmul(&basis[j]).sub(&basis[j].matmul(&basis[i]));
            assert!(
                rebuilt.approx_eq(&direct, &eps),
                "commutator round trip failed at ({}, {})",
                i,
                j
            );
        }
    }
}

#[test]
fn anticommutator_round_trip() {
    // A self-anticommutator has an identity component, which lies outside
    // the traceless basis and is not recorded; the reconstruction is exact
    // on the pairs the table does record.
    let basis = gen_gellmann(3).unwrap();
    let out = find_d_coefficients(&basis).unwrap();
    let eps = c(1e-8, 0.);
    let mut checked = 0usize;
    for i in 0..basis.len() {
        for j in 0..basis.len() {
            if i == j || out.degenerate_pairs.contains(&(i, j)) {
                continue;
            }
            if out.table.get(i, j).is_none() {
                continue;
            }
            let e_i = indicator(basis.len(), i);
            let e_j = indicator(basis.len(), j);
            let rebuilt = su_anticommutator(&e_i, &e_j, &out.table, &basis).unwrap();
            let direct = basis[i].matmul(&basis[j]).add(&basis[j].matmul(&basis[i]));
            assert!(
                rebuilt.approx_eq(&direct, &eps),
                "anticommutator round trip failed at ({}, {})",
                i,
                j
            );
            checked += 1;
        }
    }
    assert!(checked > 0, "no anticommutator pair was recorded at all");
}

#[test]
fn cross_and_dot_land_on_recorded_index() {
    let basis = gen_gellmann(2).unwrap();
    let out = find_structure_constants(&basis).unwrap();
    let e_0 = indicator(basis.len(), 0);
    let e_1 = indicator(basis.len(), 1);
    let v = cross(&e_0, &e_1, &out.table).unwrap();
    let (k, f) = out.table.get(0, 1).unwrap();
    assert!(v[k].abs_diff_eq(&f, 1e-12));
    for t in 0..v.len() {
        if t != k {
            assert!(v[t].abs_diff_eq(&c(0., 0.), 1e-12));
        }
    }

    let outd = find_d_coefficients(&basis).unwrap();
    let vd = dot(&e_0, &e_0, &outd.table).unwrap();
    if let Some((kd, fd)) = outd.table.get(0, 0) {
        assert!(vd[kd].abs_diff_eq(&fd, 1e-12));
    }
}

#[test]
fn invalid_parameter_errors() {
    assert_eq!(gen_gellmann(0).unwrap_err(), LieError::InvalidParameter);
    assert_eq!(gen_sylvester(0).unwrap_err(), LieError::InvalidParameter);
    let empty: Vec<Matrix> = Vec::new();
    assert_eq!(
        find_structure_constants(&empty).unwrap_err(),
        LieError::InvalidParameter
    );
}

#[test]
fn dimension_mismatch_errors() {
    let mut basis = gen_gellmann(2).unwrap();
    basis.push(Matrix::zeros(3));
    assert_eq!(
        find_structure_constants(&basis).unwrap_err(),
        LieError::DimensionMismatch
    );

    let basis = gen_gellmann(2).unwrap();
    let out = find_structure_constants(&basis).unwrap();
    let short = indicator(2, 0);
    let full = indicator(3, 0);
    assert_eq!(
        su_commutator(&short, &full, &out.table, &basis).unwrap_err(),
        LieError::DimensionMismatch
    );
    assert_eq!(
        cross(&short, &full, &out.table).unwrap_err(),
        LieError::DimensionMismatch
    );
}

#[test]
fn degenerate_basis_is_reported() {
    // A repeated element makes the design matrix rank-deficient.
    let g = gen_gellmann(2).unwrap();
    let basis = vec![g[0].duplicate(), g[0].duplicate()];
    assert_eq!(
        find_structure_constants(&basis).unwrap_err(),
        LieError::DegenerateDecomposition
    );
}

#[test]
fn default_tolerance_value() {
    let tol = default_tolerance();
    assert!(tol.re.abs_diff_eq(&1e-8, 1e-20));
    assert!(tol.im.abs_diff_eq(&0., 1e-20));
}
