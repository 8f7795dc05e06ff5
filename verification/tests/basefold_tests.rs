use basefold::basefold::{element_to_bytes, fold_pair, BasefoldProtocol, RoundProofs};
use basefold::error::CryptoError;
use basefold::field::{FieldElement, FieldError};
use basefold::merkle::hash_leaf;
use basefold::reed_muller::ReedMullerCode;

const P: u128 = 97;

fn fe(v: u128) -> FieldElement {
    FieldElement::new(v, P).unwrap()
}

fn values(v: &[FieldElement]) -> Vec<u128> {
    v.iter().map(|e| e.value()).collect()
}

fn family() -> (Vec<ReedMullerCode>, Vec<Vec<FieldElement>>) {
    let codes = vec![ReedMullerCode::new(1, 2, P), ReedMullerCode::new(1, 1, P)];
    let ts = vec![vec![fe(0), fe(1), fe(2), fe(3)], vec![fe(0), fe(1)]];
    (codes, ts)
}

fn toy() -> BasefoldProtocol {
    let (codes, ts) = family();
    BasefoldProtocol::with_draws(codes, ts, &vec![10, 20])
}

fn committed() -> (BasefoldProtocol, Vec<Vec<FieldElement>>, Vec<RoundProofs>) {
    let protocol = toy();
    let (oracles, table) = protocol.commit(&vec![fe(3), fe(5), fe(7)]).unwrap();
    (protocol, oracles, table)
}

#[test]
fn fold_is_affine_interpolation() {
    assert_eq!(fold_pair(fe(3), fe(8), fe(0), fe(1), fe(10)).unwrap().value(), 53);
    assert_eq!(fold_pair(fe(10), fe(15), fe(2), fe(3), fe(10)).unwrap().value(), 50);
    assert_eq!(fold_pair(fe(53), fe(6), fe(0), fe(1), fe(20)).unwrap().value(), 83);
    assert!(matches!(
        fold_pair(fe(1), fe(2), fe(4), fe(4), fe(9)),
        Err(FieldError::DivisionByZero)
    ));
}

#[test]
fn fold_at_a_domain_point_gives_its_value() {
    assert_eq!(fold_pair(fe(30), fe(71), fe(5), fe(9), fe(5)).unwrap(), fe(30));
    assert_eq!(fold_pair(fe(30), fe(71), fe(5), fe(9), fe(9)).unwrap(), fe(71));
}

#[test]
fn challenges_are_draws_reduced() {
    let (codes, ts) = family();
    let protocol = BasefoldProtocol::with_draws(codes, ts, &vec![100, 96]);
    assert_eq!(protocol.challenge(0).value(), 3);
    assert_eq!(protocol.challenge(1).value(), 96);
}

#[test]
fn commit_produces_the_folded_oracles() {
    let (_, oracles, table) = committed();
    assert_eq!(oracles.len(), 3);
    assert_eq!(values(&oracles[0]), vec![3, 5, 7]);
    assert_eq!(values(&oracles[1]), vec![53, 50]);
    assert_eq!(values(&oracles[2]), vec![83]);
    assert_eq!(table.len(), 2);
    assert_eq!(table[0].entries.len(), 2);
    assert_eq!(table[1].entries.len(), 1);
    assert_eq!(table[0].entries[1].folded, fe(50));
    assert_eq!(table[0].entries[1].proof.index, 2);
    assert_eq!(table[0].entries[0].proof.leaf, hash_leaf(&element_to_bytes(&fe(3))));
}

#[test]
fn element_bytes_are_little_endian() {
    let e = FieldElement::new(0x0102, 1 << 20).unwrap();
    let mut expected = vec![0u8; 16];
    expected[0] = 2;
    expected[1] = 1;
    assert_eq!(element_to_bytes(&e), expected);
}

#[test]
fn honest_transcript_is_accepted() {
    let (protocol, oracles, table) = committed();
    for lambda in 1..=8usize {
        assert!(protocol.query(&oracles, &table, lambda));
    }
    assert!(protocol.verify_query_path_with_merkle(&oracles, &table, 0));
    assert!(protocol.verify_query_path_with_merkle(&oracles, &table, 1));
}

#[test]
fn honest_transcript_with_fresh_challenges_is_accepted() {
    let (codes, ts) = family();
    let protocol = BasefoldProtocol::new(codes, ts);
    let (oracles, table) = protocol.commit(&vec![fe(11), fe(22), fe(33)]).unwrap();
    assert!(protocol.query(&oracles, &table, 5));
}

#[test]
fn larger_family_is_accepted() {
    let codes = vec![
        ReedMullerCode::new(3, 3, P),
        ReedMullerCode::new(2, 2, P),
        ReedMullerCode::new(1, 1, P),
    ];
    let ts: Vec<Vec<FieldElement>> =
        [8u128, 4, 2].iter().map(|n| (0..*n).map(fe).collect()).collect();
    let protocol = BasefoldProtocol::with_draws(codes, ts, &vec![5, 6, 7]);
    let message: Vec<FieldElement> = (1..=8u128).map(fe).collect();
    let (oracles, table) = protocol.commit(&message).unwrap();
    assert_eq!(oracles.len(), 4);
    assert_eq!(oracles[3].len(), 1);
    assert!(protocol.query(&oracles, &table, 5));
}

#[test]
fn tampered_message_is_rejected() {
    let (protocol, oracles, table) = committed();
    let mut rejected = 0;
    for _ in 0..20 {
        let mut bad = oracles.clone();
        bad[0][0] = fe(4);
        if !protocol.query(&bad, &table, 5) {
            rejected += 1;
        }
    }
    assert_eq!(rejected, 20);
}

#[test]
fn tampered_fold_is_rejected() {
    let (protocol, mut oracles, table) = committed();
    oracles[2][0] = fe(84);
    assert!(!protocol.query(&oracles, &table, 1));
}

#[test]
fn tampered_record_is_rejected() {
    let (protocol, oracles, mut table) = committed();
    table[0].entries[0].proof.leaf[0] ^= 1;
    assert!(!protocol.query(&oracles, &table, 1));
    let (protocol, oracles, mut table) = committed();
    table[1].root[5] ^= 1;
    assert!(!protocol.query(&oracles, &table, 1));
}

#[test]
fn missing_entries_are_rejected() {
    let (protocol, oracles, mut table) = committed();
    table[0].entries.pop();
    assert!(!protocol.query(&oracles, &table, 1));
    let (protocol, mut oracles, table) = committed();
    oracles.pop();
    assert!(!protocol.query(&oracles, &table, 1));
    let (protocol, oracles, mut table) = committed();
    table.pop();
    assert!(!protocol.query(&oracles, &table, 3));
    assert!(!protocol.transcript_shape(&oracles, &table));
}

#[test]
fn foreign_modulus_is_rejected() {
    let (protocol, mut oracles, table) = committed();
    oracles[1][1] = FieldElement::new(50, 101).unwrap();
    assert!(!protocol.query(&oracles, &table, 1));
}

#[test]
fn no_checks_accept() {
    let (protocol, mut oracles, table) = committed();
    oracles[0][0] = fe(4);
    assert!(protocol.query(&oracles, &table, 0));
}

#[test]
fn index_beyond_the_last_round_fails() {
    let (protocol, oracles, table) = committed();
    assert!(!protocol.verify_query_path_with_merkle(&oracles, &table, 2));
}

#[test]
fn merkle_proof_of_an_entry() {
    let protocol = toy();
    let codeword = vec![fe(3), fe(8), fe(10), fe(15)];
    let tree = protocol.build_merkle_tree(&codeword);
    let root = tree.root();
    for i in 0..4usize {
        let proof = protocol.generate_merkle_proof(&tree, i).unwrap();
        assert!(protocol.verify_merkle_proof(&root, &codeword[i], &proof, i));
        assert!(!protocol.verify_merkle_proof(&root, &fe(1), &proof, i));
        assert!(!protocol.verify_merkle_proof(&root, &codeword[i], &proof, i + 1));
    }
    assert!(protocol.generate_merkle_proof(&tree, 4).is_err());
}

#[test]
fn fold_relation_at_a_point() {
    let protocol = toy();
    let codeword = vec![fe(3), fe(8), fe(10), fe(15)];
    let ts = vec![fe(0), fe(1), fe(2), fe(3)];
    let next = vec![fe(53), fe(51)];
    assert!(protocol.verify_fold_at_point(&codeword, &next, &ts, fe(10), 0));
    assert!(!protocol.verify_fold_at_point(&codeword, &next, &ts, fe(10), 1));
}

#[test]
fn round_check() {
    let (protocol, oracles, table) = committed();
    assert!(protocol.verify_round(&oracles, &table, 0, 0));
    assert!(protocol.verify_round(&oracles, &table, 0, 1));
    assert!(protocol.verify_round(&oracles, &table, 1, 0));
}

#[test]
fn family_is_checked() {
    let (codes, ts) = family();
    assert!(basefold::basefold::check_family(&codes, &ts));
    assert!(BasefoldProtocol::try_new(codes, ts).is_ok());

    let (codes, mut ts) = family();
    ts[0].pop();
    assert!(!basefold::basefold::check_family(&codes, &ts));
    assert!(matches!(
        BasefoldProtocol::try_new(codes, ts),
        Err(basefold::error::CryptoError::InvalidParameters(_))
    ));

    let (codes, mut ts) = family();
    ts[1][1] = fe(0);
    assert!(basefold::basefold::check_family(&codes, &ts));

    let (mut codes, ts) = family();
    codes[1] = ReedMullerCode::new(1, 1, 101);
    assert!(!basefold::basefold::check_family(&codes, &ts));

    let codes = vec![ReedMullerCode::new(2, 3, P), ReedMullerCode::new(2, 2, P)];
    let ts: Vec<Vec<FieldElement>> =
        [8u128, 4].iter().map(|n| (0..*n).map(fe).collect()).collect();
    assert!(basefold::basefold::check_family(&codes, &ts));
    let codes = vec![ReedMullerCode::new(2, 3, P), ReedMullerCode::new(1, 2, P)];
    let ts: Vec<Vec<FieldElement>> =
        [8u128, 4].iter().map(|n| (0..*n).map(fe).collect()).collect();
    assert!(!basefold::basefold::check_family(&codes, &ts));
    assert!(!basefold::basefold::check_family(&Vec::new(), &Vec::new()));
}

#[test]
fn parity_rows_complete_the_generator() {
    for m in 0..5usize {
        for r in 0..6usize {
            let code = ReedMullerCode::new(r, m, P);
            assert_eq!(code.generator_matrix.len(), code.k);
            assert_eq!(code.parity_check_matrix.len(), code.n - code.k);
        }
    }
}

#[test]
fn coinciding_domain_points_fail_the_commit() {
    let (codes, mut ts) = family();
    ts[1][1] = fe(0);
    let protocol = BasefoldProtocol::with_draws(codes, ts, &vec![10, 20]);
    assert!(matches!(
        protocol.commit(&vec![fe(3), fe(5), fe(7)]),
        Err(CryptoError::FieldError(FieldError::DivisionByZero))
    ));
    let codeword = vec![fe(53), fe(6)];
    assert!(matches!(
        protocol.fold_with_merkle(1, &codeword),
        Err(CryptoError::FieldError(FieldError::DivisionByZero))
    ));
    let first = vec![fe(3), fe(8), fe(10), fe(15)];
    let (folded, record) = protocol.fold_with_merkle(0, &first).unwrap();
    assert_eq!(values(&folded), vec![53, 50]);
    assert_eq!(record.entries.len(), 2);
}

#[test]
fn coinciding_domain_points_fail_the_check() {
    let (protocol, oracles, table) = committed();
    let (codes, mut ts) = family();
    ts[0][1] = fe(0);
    let other = BasefoldProtocol::with_draws(codes, ts, &vec![10, 20]);
    assert!(protocol.verify_round(&oracles, &table, 0, 0));
    assert!(!other.verify_round(&oracles, &table, 0, 0));
    assert!(other.verify_round(&oracles, &table, 0, 1));
    assert!(!other.query(&oracles, &table, 1));
}

#[test]
fn checks_at_given_indices() {
    let (protocol, oracles, table) = committed();
    assert!(protocol.query_at(&oracles, &table, &vec![]));
    assert!(protocol.query_at(&oracles, &table, &vec![0, 1, 1, 0]));
    assert!(!protocol.query_at(&oracles, &table, &vec![0, 2]));
    assert!(!protocol.query_at(&oracles, &table, &vec![2, 0]));
    assert!(!protocol.query_at(&oracles, &table, &vec![0, 1, 0, 1, 2]));
}

#[test]
fn every_check_counts() {
    let codes = vec![
        ReedMullerCode::new(3, 3, P),
        ReedMullerCode::new(2, 2, P),
        ReedMullerCode::new(1, 1, P),
    ];
    let ts: Vec<Vec<FieldElement>> =
        [8u128, 4, 2].iter().map(|n| (0..*n).map(fe).collect()).collect();
    let protocol = BasefoldProtocol::with_draws(codes, ts, &vec![5, 6, 7]);
    let message: Vec<FieldElement> = (1..=8u128).map(fe).collect();
    let (oracles, mut table) = protocol.commit(&message).unwrap();
    table[0].entries[0].proof.leaf[0] ^= 1;
    let (oracles2, table2) = protocol.commit(&message).unwrap();
    // An index beyond the last round's codeword fails by itself; together
    // with passing ones it still fails, wherever it stands.
    assert!(protocol.verify_query_path_with_merkle(&oracles2, &table2, 0));
    assert!(!protocol.verify_query_path_with_merkle(&oracles2, &table2, 2));
    assert!(protocol.query_at(&oracles2, &table2, &vec![0, 1, 0]));
    assert!(!protocol.query_at(&oracles2, &table2, &vec![0, 1, 2]));
    assert!(!protocol.query_at(&oracles2, &table2, &vec![2, 1, 0]));
    assert!(!protocol.query_at(&oracles, &table, &vec![0]));
}
