use sat_solver::algorithm::interface::{
    assignment_from_sign, index_to_lit, lit_to_index, negate, search_unassigned, Assignment,
    Assignments, Clause, Lit, Sign,
};
use sat_solver::algorithm::simple::to_model;
use sat_solver::algorithm::utility::{check_result, preprocess, PreprocessError};

fn lit(v: i64) -> Lit {
    Lit::new(v).unwrap()
}

fn clause(lits: &[i64]) -> Clause {
    Clause::from_vec(lits.iter().map(|v| lit(*v)).collect())
}

#[test]
fn literal_from_signed_number() {
    assert_eq!(Lit::from_i64(1), Lit { index: 0, sign: Sign::Pos });
    assert_eq!(Lit::from_i64(-7), Lit { index: 6, sign: Sign::Neg });
    assert_eq!(Lit::new(5), Some(Lit { index: 4, sign: Sign::Pos }));
    assert_eq!(Lit::new(0), None);
    assert_eq!(
        Lit::new(i64::MAX),
        Some(Lit { index: (i64::MAX - 1) as usize, sign: Sign::Pos })
    );
    assert_eq!(
        Lit::new(i64::MIN),
        Some(Lit { index: i64::MAX as usize, sign: Sign::Neg })
    );
}

#[test]
fn literal_to_signed_number() {
    assert_eq!(lit(3).to_i64(), 3);
    assert_eq!(lit(-3).to_i64(), -3);
    assert_eq!(Lit { index: 0, sign: Sign::Neg }.to_i64(), -1);
    assert_eq!(lit(-12).sign(), Sign::Neg);
}

#[test]
fn literal_index_negation_and_sign() {
    assert_eq!(lit_to_index(lit(4)), 3);
    assert_eq!(lit_to_index(lit(-4)), 3);
    assert_eq!(negate(lit(4)), lit(-4));
    assert_eq!(negate(lit(-4)), lit(4));
    assert_eq!(negate(negate(lit(9))), lit(9));
    assert_eq!(index_to_lit(2, Assignment::Top), lit(3));
    assert_eq!(index_to_lit(2, Assignment::Bot), lit(-3));
    assert_eq!(assignment_from_sign(Sign::Pos), Assignment::Top);
    assert_eq!(assignment_from_sign(Sign::Neg), Assignment::Bot);
}

#[test]
fn assignment_to_bool() {
    assert!(Assignment::Top.to_bool());
    assert!(!Assignment::Bot.to_bool());
    assert_eq!(
        to_model(&vec![Assignment::Top, Assignment::Bot, Assignment::Top]).assignments,
        vec![true, false, true]
    );
}

#[test]
fn assignments_start_unassigned() {
    let a = Assignments::all_unassigned(3);
    assert_eq!(a.assignments, vec![Assignment::Unassigned; 3]);
    assert!(!a.all_set());
    assert!(Assignments::all_unassigned(0).all_set());
    let b = Assignments { assignments: vec![Assignment::Top, Assignment::Bot] };
    assert!(b.all_set());
}

#[test]
fn search_finds_lowest_unassigned() {
    let v = vec![Assignment::Top, Assignment::Unassigned, Assignment::Bot, Assignment::Unassigned];
    assert_eq!(search_unassigned(&v), Some(1));
    assert_eq!(search_unassigned(&vec![Assignment::Bot]), None);
    assert_eq!(search_unassigned(&Vec::new()), None);
}

#[test]
fn clause_accessors_and_clone() {
    let c = clause(&[1, -2, 3]);
    assert_eq!(c.len(), 3);
    assert_eq!(c.lits(), &vec![lit(1), lit(-2), lit(3)]);
    assert_eq!(c.clone(), c);
    assert_eq!(Clause::from_vec(Vec::new()).len(), 0);
}

#[test]
fn preprocess_drops_tautologies_and_repeats() {
    let f = vec![
        clause(&[1, 2, 1, -3, 2]),
        clause(&[1, -1]),
        clause(&[3, 2, -3]),
        clause(&[-2]),
        clause(&[4, 4, 4]),
    ];
    let cleaned = preprocess(&f).unwrap();
    assert_eq!(cleaned, vec![clause(&[1, 2, -3]), clause(&[-2]), clause(&[4])]);
}

#[test]
fn preprocess_refuses_an_empty_clause() {
    let f = vec![clause(&[1, 2]), clause(&[]), clause(&[1, -1])];
    assert_eq!(preprocess(&f), Err(PreprocessError::EmptyFormulaIsUnsat));
    assert_eq!(preprocess(&Vec::new()), Ok(Vec::new()));
    assert_eq!(preprocess(&vec![clause(&[1, -1])]), Ok(Vec::new()));
}

#[test]
fn preprocess_keeps_the_models() {
    let f = vec![clause(&[1, 1, -2]), clause(&[2, -2, 3]), clause(&[-1, 3, 3])];
    let cleaned = preprocess(&f).unwrap();
    for bits in 0..8u32 {
        let m: Vec<bool> = (0..3).map(|v| bits & (1 << v) != 0).collect();
        assert_eq!(check_result(&f, &m), check_result(&cleaned, &m));
    }
}

#[test]
fn check_result_wants_a_true_literal_in_every_clause() {
    let f = vec![clause(&[1, -2]), clause(&[2, 3])];
    assert!(check_result(&f, &vec![true, true, false]));
    assert!(check_result(&f, &vec![false, false, true]));
    assert!(!check_result(&f, &vec![false, true, true]));
    assert!(!check_result(&f, &vec![true, false, false]));
    assert!(check_result(&Vec::new(), &vec![]));
    assert!(!check_result(&vec![clause(&[])], &vec![true]));
}

#[test]
fn check_result_counts_uncovered_literals_as_not_true() {
    let f = vec![clause(&[3])];
    assert!(!check_result(&f, &vec![true, true]));
    assert!(check_result(&vec![clause(&[3, 1])], &vec![true, true]));
}

#[test]
fn check_result_gives_the_same_answer_again() {
    let f = vec![clause(&[1, -2]), clause(&[2, 3])];
    let m = vec![true, false, true];
    assert_eq!(check_result(&f, &m), check_result(&f, &m));
    assert_eq!(check_result(&f.clone(), &m.clone()), check_result(&f, &m));
}
