use paillier_crypto::exactmatch::{
    phase2_prepare_dual_ft, phase3_server_compute, phase4_decrypt_and_count, simple_hash,
    SparseTable, TABLE_SIZE,
};
use paillier_crypto::paillier::p_keygen;

#[test]
fn simple_hash_exact_values() {
    // one character: the accumulator is just its code point
    assert_eq!(simple_hash("A"), 65);
    // two characters: (65 * 128 - 65 + 66) mod 2^30
    assert_eq!(simple_hash("AB"), 65 * 128 - 65 + 66);
    assert_eq!(simple_hash(""), 0);
    assert!(simple_hash("some longer identifier") < TABLE_SIZE);
}

#[test]
fn sparse_table_build_and_len() {
    let ids = vec![
        String::from("A"),
        String::from("B"),
        String::from("A"),
        String::from("C"),
    ];
    let table = SparseTable::build(&ids);
    // the duplicate identifier lands on the same position
    assert_eq!(table.len(), 3);
    assert!(table.contains(simple_hash("A")));
    assert!(table.contains(simple_hash("B")));
    assert!(table.contains(simple_hash("C")));
    assert!(!table.contains(simple_hash("D")));
}

#[test]
fn common_positions_is_the_intersection() {
    let t1 = SparseTable::build(&[
        String::from("A"),
        String::from("B"),
        String::from("C"),
    ]);
    let t2 = SparseTable::build(&[
        String::from("B"),
        String::from("C"),
        String::from("D"),
    ]);
    let common = t1.common_positions(&t2);
    assert_eq!(common.len(), 2);
    assert!(common.contains(&simple_hash("B")));
    assert!(common.contains(&simple_hash("C")));
    assert!(!common.contains(&simple_hash("A")));
    assert!(!common.contains(&simple_hash("D")));
}

#[test]
fn exactmatch_cardinality_two() {
    let kp1 = p_keygen(128).unwrap();
    let kp2 = p_keygen(128).unwrap();

    let d1 = vec![String::from("A"), String::from("B"), String::from("C")];
    let d2 = vec![String::from("B"), String::from("C"), String::from("D")];

    let t1 = SparseTable::build(&d1);
    let t2 = SparseTable::build(&d2);

    let bd1 = phase2_prepare_dual_ft(&t1, &kp1, &kp2);
    let bd2 = phase2_prepare_dual_ft(&t2, &kp1, &kp2);

    let (l1, l2) = phase3_server_compute(&t1, &t2, &bd1, &bd2, &kp1, &kp2);
    assert_eq!(l1.len(), 2);
    assert_eq!(l2.len(), 2);

    let r1 = phase4_decrypt_and_count(&l1, &kp1);
    let r2 = phase4_decrypt_and_count(&l2, &kp2);
    assert_eq!(r1, 2);
    assert_eq!(r2, 2);
}

#[test]
fn exactmatch_empty_intersection() {
    let kp1 = p_keygen(128).unwrap();
    let kp2 = p_keygen(128).unwrap();

    let t1 = SparseTable::build(&[String::from("A")]);
    let t2 = SparseTable::build(&[String::from("B")]);

    let bd1 = phase2_prepare_dual_ft(&t1, &kp1, &kp2);
    let bd2 = phase2_prepare_dual_ft(&t2, &kp1, &kp2);

    let (l1, l2) = phase3_server_compute(&t1, &t2, &bd1, &bd2, &kp1, &kp2);
    assert_eq!(l1.len(), 0);
    assert_eq!(l2.len(), 0);
    assert_eq!(phase4_decrypt_and_count(&l1, &kp1), 0);
    assert_eq!(phase4_decrypt_and_count(&l2, &kp2), 0);
}
