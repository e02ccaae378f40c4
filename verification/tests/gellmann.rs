use approx::AbsDiffEq;
use lie::gellmann::gen_gellmann;
use lie::lie_algebra::find_structure_constants;

#[test]
fn check_pauli_structure() {
    let g = gen_gellmann(2).unwrap();
    let x = find_structure_constants(&g).unwrap();

    // The Pauli matrices satisfy:
    // [sigma_x, sigma_y] = 2sigma_z

    assert!(x.table.get(0, 1).unwrap().1.re.abs_diff_eq(&2., 1e-8));
    assert!(x.table.get(1, 2).unwrap().1.re.abs_diff_eq(&2., 1e-8));
    assert!(x.table.get(2, 0).unwrap().1.re.abs_diff_eq(&2., 1e-8));
}

#[test]
fn test_gellmann_structure() {
    let g = gen_gellmann(3).unwrap();
    let x = find_structure_constants(&g).unwrap();

    println!("{}", x.table.len());
}
