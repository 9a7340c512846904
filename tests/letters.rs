use wordhunt::letters::{best_letter, ClassifierError};

#[test]
fn empty_catalog_is_an_error() {
    assert_eq!(best_letter(&Vec::new()), Err(ClassifierError::EmptyCatalog));
}

#[test]
fn exact_match_wins() {
    // An image identical to the reference of 'a' scores the most.
    let perfect = 1.0f64.to_bits();
    let partial = 0.4f64.to_bits();
    assert_eq!(best_letter(&vec![('a', perfect), ('b', partial)]), Ok('a'));
    assert_eq!(best_letter(&vec![('b', partial), ('a', perfect)]), Ok('a'));
}

#[test]
fn highest_score_wins() {
    assert_eq!(best_letter(&vec![('x', 3), ('y', 9), ('z', 5)]), Ok('y'));
}

#[test]
fn ties_go_to_the_smallest_character() {
    assert_eq!(best_letter(&vec![('m', 7), ('c', 7), ('t', 7)]), Ok('c'));
    assert_eq!(best_letter(&vec![('c', 7), ('m', 7)]), Ok('c'));
}

#[test]
fn a_low_best_score_is_still_taken() {
    assert_eq!(best_letter(&vec![('q', 0)]), Ok('q'));
}
