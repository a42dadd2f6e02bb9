use pumpkin_solver::engine::sat::clause_inlined::ClauseInlined;
use pumpkin_solver::engine::sat::clause_inlined::Literal;

#[test]
fn test_size_and_align() {
    //these should be static asserts
    assert!(std::mem::size_of::<ClauseInlined>() == 8);
    assert!(std::mem::align_of::<ClauseInlined>() == 4);
    assert!(std::mem::size_of::<Literal>() == 4);
}

#[test]
fn test_fresh_clause() {
    let lits = [
        Literal::u32_to_literal(5),
        Literal::u32_to_literal(10),
        Literal::u32_to_literal(15),
    ];

    let clause = ClauseInlined::new(lits.len() as u32, true);

    assert!(clause.is_learned());
    assert!(!clause.is_deleted());
    assert!(!clause.is_protected_against_deletion());
    assert!(clause.get_lbd() == lits.len() as u32);
    assert!(clause.len() == 3);
}

#[test]
fn test_lbd() {
    let lits = [
        Literal::u32_to_literal(5),
        Literal::u32_to_literal(10),
        Literal::u32_to_literal(15),
    ];

    let mut clause = ClauseInlined::new(lits.len() as u32, true);

    assert!(clause.get_lbd() == lits.len() as u32);
    clause.update_lbd(2);
    assert!(clause.get_lbd() == 2);
    clause.update_lbd(10);
    assert!(clause.get_lbd() == 10);
}

#[test]
fn test_flags() {
    let lits = [
        Literal::u32_to_literal(5),
        Literal::u32_to_literal(10),
        Literal::u32_to_literal(15),
    ];

    let mut clause = ClauseInlined::new(lits.len() as u32, true);

    assert!(clause.is_learned());

    assert!(!clause.is_protected_against_deletion());
    clause.mark_protection_against_deletion();
    assert!(clause.is_protected_against_deletion());
    clause.clear_protection_against_deletion();
    assert!(!clause.is_protected_against_deletion());

    assert!(!clause.is_deleted());
    clause.mark_deleted();
    assert!(clause.is_deleted());
}

#[test]
fn flags_and_lbd_do_not_disturb_each_other() {
    let mut clause = ClauseInlined::new(0x1fff_ffff, false);
    assert!(!clause.is_learned());
    assert_eq!(0x1fff_ffff, clause.get_lbd());
    clause.mark_learned();
    clause.mark_deleted();
    clause.mark_protection_against_deletion();
    assert_eq!(0x1fff_ffff, clause.get_lbd());
    clause.update_lbd(0);
    assert!(clause.is_learned());
    assert!(clause.is_deleted());
    assert!(clause.is_protected_against_deletion());
    clause.clear_flags();
    assert!(!clause.is_learned());
    assert!(!clause.is_deleted());
    assert!(!clause.is_protected_against_deletion());
    assert_eq!(0, clause.get_lbd());
    assert_eq!(0x1fff_ffff, clause.len());
}

#[test]
fn a_clause_takes_two_words_more_than_its_literals() {
    assert_eq!(5, ClauseInlined::num_u32s_required_for_clause(3, false));
    assert_eq!(6, ClauseInlined::num_u32s_required_for_clause(3, true));
    assert_eq!(2, ClauseInlined::num_u32s_required_for_clause(0, false));
    assert_eq!(31, ClauseInlined::bit_protected_against_deletion());
    assert_eq!(30, ClauseInlined::bit_deleted());
    assert_eq!(29, ClauseInlined::bit_learned());
    assert_eq!(28, ClauseInlined::bit_lbd_most_significant());
    assert_eq!(100, Literal::u32_to_literal(100).to_u32());
}
