use std::cmp::Ordering;
use wordhunt::solver::{check_grid, find_all_words, solve_board, GridShapeError, Word};
use wordhunt::trie::TrieNode;

fn dictionary(words: &[&str]) -> TrieNode {
    let mut d = TrieNode::new();
    for w in words {
        d.insert(w);
    }
    d
}

fn grid(rows: &[&[&str]]) -> Vec<Vec<String>> {
    rows.iter().map(|r| r.iter().map(|c| c.to_string()).collect()).collect()
}

fn texts(words: &[Word]) -> Vec<String> {
    words.iter().map(|w| w.word.clone()).collect()
}

fn assert_paths_valid(board: &[Vec<String>], words: &[Word]) {
    for w in words {
        assert_eq!(w.characters.len(), w.word.chars().count());
        let spelled: String = w.characters.iter().map(|&(x, y)| board[y][x].clone()).collect();
        assert_eq!(spelled, w.word);
        for i in 0..w.characters.len() {
            for j in (i + 1)..w.characters.len() {
                assert_ne!(w.characters[i], w.characters[j]);
            }
        }
        for pair in w.characters.windows(2) {
            let dx = pair[0].0 as i64 - pair[1].0 as i64;
            let dy = pair[0].1 as i64 - pair[1].1 as i64;
            assert!(dx.abs() <= 1 && dy.abs() <= 1);
        }
    }
}

#[test]
fn finds_cat_car_art_rat() {
    let d = dictionary(&["cat", "car", "art", "rat"]);
    let board = grid(&[&["c", "a", "t"], &["a", "r", "?"], &["?", "?", "?"]]);
    let found = find_all_words(&board, &d);
    assert_eq!(texts(&found), vec!["art", "car", "cat", "rat"]);
    assert_paths_valid(&board, &found);
    assert!(!texts(&found).contains(&"ca".to_string()));
    assert!(!texts(&found).contains(&"ar".to_string()));
}

#[test]
fn short_words_are_never_reported() {
    let d = dictionary(&["ca", "ar", "a", "cat"]);
    let board = grid(&[&["c", "a", "t"], &["a", "r", "?"]]);
    let found = find_all_words(&board, &d);
    assert_eq!(texts(&found), vec!["cat"]);
}

#[test]
fn longer_words_come_first() {
    let d = dictionary(&["cart", "car", "art"]);
    let board = grid(&[&["c", "a"], &["t", "r"]]);
    let found = find_all_words(&board, &d);
    assert_eq!(texts(&found), vec!["cart", "art", "car"]);
    assert_paths_valid(&board, &found);
}

#[test]
fn word_on_two_paths_is_reported_once() {
    let d = dictionary(&["car"]);
    let board = grid(&[&["c", "a"], &["a", "r"]]);
    let found = find_all_words(&board, &d);
    assert_eq!(texts(&found), vec!["car"]);
    assert_paths_valid(&board, &found);
}

#[test]
fn cells_are_not_reused() {
    let d = dictionary(&["aba", "abab"]);
    let board = grid(&[&["a", "b"]]);
    assert!(find_all_words(&board, &d).is_empty());
}

#[test]
fn empty_dictionary_finds_nothing() {
    let d = TrieNode::new();
    let board = grid(&[&["c", "a", "t"], &["a", "r", "t"], &["t", "a", "c"]]);
    assert!(find_all_words(&board, &d).is_empty());
}

#[test]
fn empty_grids_find_nothing() {
    let d = dictionary(&["cat"]);
    let none: Vec<Vec<String>> = Vec::new();
    assert!(find_all_words(&none, &d).is_empty());
    let no_columns: Vec<Vec<String>> = vec![Vec::new(), Vec::new()];
    assert!(find_all_words(&no_columns, &d).is_empty());
}

#[test]
fn diagonal_moves_count() {
    let d = dictionary(&["abc"]);
    let board = grid(&[&["a", "x", "x"], &["x", "b", "x"], &["x", "x", "c"]]);
    let found = find_all_words(&board, &d);
    assert_eq!(texts(&found), vec!["abc"]);
    assert_eq!(found[0].characters, vec![(0, 0), (1, 1), (2, 2)]);
}

#[test]
fn searching_twice_gives_the_same_words() {
    let d = dictionary(&["cat", "car", "art", "rat", "tar", "arc"]);
    let board = grid(&[&["c", "a", "t"], &["a", "r", "t"], &["t", "a", "c"]]);
    let first = find_all_words(&board, &d);
    let second = find_all_words(&board, &d);
    assert_eq!(texts(&first), texts(&second));
    for pair in first.windows(2) {
        let (a, b) = (&pair[0].word, &pair[1].word);
        assert!(a.len() > b.len() || (a.len() == b.len() && a < b));
    }
}

#[test]
fn check_grid_accepts_rectangles() {
    assert_eq!(check_grid(&grid(&[&["a", "b"], &["c", "d"]])), Ok(()));
    assert_eq!(check_grid(&Vec::new()), Ok(()));
}

#[test]
fn check_grid_rejects_ragged_rows() {
    let board = grid(&[&["a", "b"], &["c"], &["d", "e", "f"]]);
    assert_eq!(check_grid(&board), Err(GridShapeError::RaggedRow(1)));
}

#[test]
fn check_grid_rejects_long_cells() {
    let board = grid(&[&["a", "b"], &["c", "de"]]);
    assert_eq!(check_grid(&board), Err(GridShapeError::NotOneCharacter(1, 1)));
    let empty_cell = grid(&[&["", "b"]]);
    assert_eq!(check_grid(&empty_cell), Err(GridShapeError::NotOneCharacter(0, 0)));
}

#[test]
fn solve_board_checks_then_searches() {
    let d = dictionary(&["cat"]);
    let ragged = grid(&[&["c", "a", "t"], &["a"]]);
    assert!(matches!(solve_board(&ragged, &d), Err(GridShapeError::RaggedRow(1))));
    let good = grid(&[&["c", "a", "t"]]);
    let found = solve_board(&good, &d).unwrap();
    assert_eq!(texts(&found), vec!["cat"]);
}

#[test]
fn word_append_and_truncate() {
    let mut w = Word::new();
    assert_eq!(w.len(), 0);
    w.append(&"c".to_string(), 0, 0);
    w.append(&"a".to_string(), 1, 0);
    w.append(&"t".to_string(), 2, 1);
    assert_eq!(w.word, "cat");
    assert_eq!(w.len(), 3);
    assert_eq!(w.characters, vec![(0, 0), (1, 0), (2, 1)]);
    w.truncate(2);
    assert_eq!(w.word, "ca");
    assert_eq!(w.characters, vec![(0, 0), (1, 0)]);
    w.truncate(5);
    assert_eq!(w.word, "ca");
}

#[test]
fn word_compare_and_equality() {
    let mut a = Word::new();
    a.append(&"a".to_string(), 0, 0);
    let mut b = Word::new();
    b.append(&"b".to_string(), 1, 1);
    let mut a2 = Word::new();
    a2.append(&"a".to_string(), 5, 5);
    assert_eq!(a.cmp(&b), Ordering::Less);
    assert_eq!(b.cmp(&a), Ordering::Greater);
    assert_eq!(a.cmp(&a2), Ordering::Equal);
    assert!(a == a2);
    assert!(a != b);
    let mut ab = a.clone();
    ab.append(&"b".to_string(), 1, 0);
    assert_eq!(a.cmp(&ab), Ordering::Less);
}
