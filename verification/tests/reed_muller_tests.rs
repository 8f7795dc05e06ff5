use basefold::field::FieldElement;
use basefold::reed_muller::ReedMullerCode;

fn fe(v: u128) -> FieldElement {
    FieldElement::new(v, 97).unwrap()
}

fn values(v: &[FieldElement]) -> Vec<u128> {
    v.iter().map(|e| e.value()).collect()
}

#[test]
fn lengths_of_small_code() {
    let code = ReedMullerCode::new(1, 2, 97);
    assert_eq!(code.n, 4);
    assert_eq!(code.k, 3);
    assert_eq!(code.generator_matrix.len(), 3);
    assert_eq!(code.parity_check_matrix.len(), 1);
}

#[test]
fn lengths_follow_binomial_sums() {
    let code = ReedMullerCode::new(2, 4, 97);
    assert_eq!(code.n, 16);
    assert_eq!(code.k, 11);
    assert_eq!(code.parity_check_matrix.len(), 5);
    let full = ReedMullerCode::new(2, 1, 97);
    assert_eq!(full.n, 2);
    assert_eq!(full.k, 2);
    assert_eq!(full.parity_check_matrix.len(), 0);
    let constant = ReedMullerCode::new(0, 3, 97);
    assert_eq!(constant.n, 8);
    assert_eq!(constant.k, 1);
    let point = ReedMullerCode::new(0, 0, 97);
    assert_eq!(point.n, 1);
    assert_eq!(point.k, 1);
}

#[test]
fn matrices_of_small_code() {
    let code = ReedMullerCode::new(1, 2, 97);
    let rows: Vec<Vec<u128>> = code.generator_matrix.iter().map(|r| values(r)).collect();
    assert_eq!(rows, vec![vec![1, 1, 1, 1], vec![0, 1, 0, 1], vec![0, 0, 1, 1]]);
    let parity: Vec<Vec<u128>> = code.parity_check_matrix.iter().map(|r| values(r)).collect();
    assert_eq!(parity, vec![vec![0, 0, 0, 1]]);
    assert_eq!(
        code.evaluation_points,
        vec![vec![0u8, 0], vec![1, 0], vec![0, 1], vec![1, 1]]
    );
}

#[test]
fn encode_small_message() {
    let code = ReedMullerCode::new(1, 2, 97);
    let codeword = code.encode(vec![fe(1), fe(2), fe(3)]);
    assert_eq!(codeword.len(), 4);
    assert_eq!(values(&codeword), vec![1, 3, 4, 6]);
}

#[test]
fn encode_reduces_sums() {
    let code = ReedMullerCode::new(1, 2, 97);
    let codeword = code.encode(vec![fe(90), fe(50), fe(60)]);
    assert_eq!(values(&codeword), vec![90, 43, 53, 6]);
}

#[test]
fn combinations_in_order() {
    assert_eq!(
        ReedMullerCode::generate_combinations(4, 2),
        vec![vec![0, 1], vec![0, 2], vec![0, 3], vec![1, 2], vec![1, 3], vec![2, 3]]
    );
    assert_eq!(ReedMullerCode::generate_combinations(3, 0), vec![Vec::<usize>::new()]);
    assert!(ReedMullerCode::generate_combinations(2, 3).is_empty());
    assert_eq!(ReedMullerCode::combinations_helper(4, 1, 2), vec![vec![2], vec![3]]);
}

#[test]
fn point_index_reads_bits() {
    let code = ReedMullerCode::new(1, 3, 97);
    assert_eq!(code.point_to_index(&vec![1, 0, 1]), 5);
    assert_eq!(code.point_to_index(&vec![0, 0, 0]), 0);
    assert_eq!(code.point_to_index(&vec![0, 1, 1]), 6);
}

#[test]
fn subspace_of_two_variables() {
    let code = ReedMullerCode::new(1, 3, 97);
    let basis = code.generate_basis_vectors(&vec![0, 2]);
    assert_eq!(basis, vec![vec![1u8, 0, 0], vec![0, 0, 1]]);
    let subspace = code.generate_subspace_from_basis(&basis);
    assert_eq!(
        subspace,
        vec![vec![0u8, 0, 0], vec![1, 0, 0], vec![0, 0, 1], vec![1, 0, 1]]
    );
    assert_eq!(code.generate_subspaces(2).len(), 3);
    assert_eq!(code.generate_subspaces(0), vec![vec![vec![0u8, 0, 0]]]);
}

#[test]
fn subspace_sum() {
    let code = ReedMullerCode::new(1, 2, 97);
    let received = vec![fe(90), fe(50), fe(60), fe(7)];
    let all = code.generate_subspaces(2);
    assert_eq!(code.evaluate_on_subspace(&received, &all[0]).value(), 13);
}

#[test]
fn decode_votes() {
    let code = ReedMullerCode::new(1, 2, 97);
    let high = code.decode(vec![fe(50), fe(0), fe(0), fe(0)]);
    assert_eq!(values(&high), vec![1, 1, 1]);
    let low = code.decode(vec![fe(48), fe(96), fe(96), fe(96)]);
    assert_eq!(values(&low), vec![0, 0, 0]);
}
