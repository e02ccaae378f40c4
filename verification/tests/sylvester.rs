use lie::lie_algebra::find_structure_constants;
use lie::sylvester::gen_sylvester;

#[test]
fn test_sylvester_structure() {
    let basis = gen_sylvester(3).unwrap();
    let x = find_structure_constants(&basis).unwrap();

    println!("{}", x.table.len());
}
