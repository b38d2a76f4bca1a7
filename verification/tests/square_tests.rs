use magic_squares::dictionary::Dictionary;
use magic_squares::square::{FillError, MagicSquare};

fn dict_of(words: &[&str]) -> Dictionary {
    Dictionary::from_words(words.iter().map(|w| w.to_string()).collect())
}

fn row_string(s: &MagicSquare, row: usize) -> String {
    s.get_row(row).into_iter().collect()
}

fn col_string(s: &MagicSquare, col: usize) -> String {
    s.get_col(col).into_iter().collect()
}

#[test]
fn two_by_two_with_three_letter_words_is_unsolvable() {
    let d = dict_of(&["cat", "car", "cog", "dog", "dot", "dig"]);
    let mut s = MagicSquare::empty(2, 2, &d);
    let r = s.fill();
    assert!(r.is_err());
    // failure restores every editable cell to the wildcard
    for i in 0..2 {
        for j in 0..2 {
            assert_eq!(s.get(i, j), '_');
        }
    }
}

#[test]
fn one_by_one_against_two_letter_word_is_unsolvable() {
    let d = dict_of(&["aa"]);
    let mut s = MagicSquare::empty(1, 1, &d);
    let r = s.fill();
    assert_eq!(r, Err(FillError { row: 0, col: 0 }));
    assert_eq!(s.get(0, 0), '_');
}

#[test]
fn one_by_one_against_one_letter_word_succeeds() {
    let d = dict_of(&["a"]);
    let mut s = MagicSquare::empty(1, 1, &d);
    assert_eq!(s.fill(), Ok(()));
    assert_eq!(s.get(0, 0), 'a');
}

#[test]
fn solved_grid_has_dictionary_rows_and_columns() {
    let d = dict_of(&["ab", "ba"]);
    let mut s = MagicSquare::empty(2, 2, &d);
    assert_eq!(s.fill(), Ok(()));
    for i in 0..2 {
        assert!(d.contains(row_string(&s, i).as_str()));
    }
    for j in 0..2 {
        assert!(d.contains(col_string(&s, j).as_str()));
    }
    // alphabetical letter order and row-major fill order pick this grid
    assert_eq!(row_string(&s, 0), "ab");
    assert_eq!(row_string(&s, 1), "ba");
}

#[test]
fn hardened_top_row_is_never_altered() {
    let d = dict_of(&["abc", "abd", "dog"]);
    let mut s = MagicSquare::empty(3, 3, &d);
    s.set_and_harden(0, 0, 'a');
    s.set_and_harden(0, 1, 'b');
    s.set_and_harden(0, 2, 'c');
    let r = s.fill();
    // no dictionary word starts with 'b', so column two cannot be completed
    assert!(r.is_err());
    assert_eq!(s.get(0, 0), 'a');
    assert_eq!(s.get(0, 1), 'b');
    assert_eq!(s.get(0, 2), 'c');
    for i in 1..3 {
        for j in 0..3 {
            assert_eq!(s.get(i, j), '_');
        }
    }
}

#[test]
fn hardened_seed_constrains_the_solution() {
    let d = dict_of(&["ab", "ba"]);
    let mut s = MagicSquare::empty(2, 2, &d);
    s.set_and_harden(0, 0, 'b');
    assert_eq!(s.fill(), Ok(()));
    assert_eq!(s.get(0, 0), 'b');
    assert_eq!(row_string(&s, 0), "ba");
    assert_eq!(row_string(&s, 1), "ab");
    assert_eq!(col_string(&s, 0), "ba");
    assert_eq!(col_string(&s, 1), "ab");
}

#[test]
fn repeated_fills_give_identical_results() {
    let words = ["cat", "cow", "car", "act", "tot", "arc", "cta", "owa", "wat"];
    let build = || {
        let d = dict_of(&words);
        let mut s = MagicSquare::empty(3, 3, &d);
        s.set_and_harden(0, 0, 'c');
        s
    };
    let mut a = build();
    let mut b = build();
    let ra = a.fill();
    let rb = b.fill();
    assert_eq!(ra, rb);
    for i in 0..3 {
        assert_eq!(row_string(&a, i), row_string(&b, i));
    }
}

#[test]
fn fill_with_no_editable_cells_succeeds() {
    let d = dict_of(&["zz"]);
    let mut s = MagicSquare::empty(1, 1, &d);
    s.set_and_harden(0, 0, 'q');
    assert_eq!(s.fill(), Ok(()));
    assert_eq!(s.get(0, 0), 'q');
}

#[test]
fn find_first_empty_square_scans_in_row_major_order() {
    let d = dict_of(&["ab"]);
    let mut s = MagicSquare::empty(2, 3, &d);
    assert_eq!(s.find_first_empty_square(), Some((0, 0)));
    s.set(0, 0, 'x');
    assert_eq!(s.find_first_empty_square(), Some((0, 1)));
    s.set_and_harden(0, 1, 'y');
    s.set(0, 2, 'z');
    assert_eq!(s.find_first_empty_square(), Some((1, 0)));
    s.set(1, 0, 'a');
    s.set(1, 1, 'b');
    s.set(1, 2, 'c');
    assert_eq!(s.find_first_empty_square(), None);
}

#[test]
fn set_and_get_round_trip() {
    let d = dict_of(&["ab"]);
    let mut s = MagicSquare::empty(2, 2, &d);
    assert_eq!(s.get(1, 1), '_');
    s.set(1, 1, 'k');
    assert_eq!(s.get(1, 1), 'k');
    s.set(1, 1, '_');
    assert_eq!(s.get(1, 1), '_');
}

#[test]
fn get_row_and_get_col_read_the_grid() {
    let d = dict_of(&["ab"]);
    let mut s = MagicSquare::empty(2, 3, &d);
    s.set(0, 0, 'a');
    s.set(0, 1, 'b');
    s.set(0, 2, 'c');
    s.set(1, 0, 'd');
    assert_eq!(s.get_row(0), vec!['a', 'b', 'c']);
    assert_eq!(s.get_row(1), vec!['d', '_', '_']);
    assert_eq!(s.get_col(0), vec!['a', 'd']);
    assert_eq!(s.get_col(2), vec!['c', '_']);
}

#[test]
fn probe_validity_accepts_words_and_feasible_templates() {
    let d = dict_of(&["cat", "car"]);
    let s = MagicSquare::empty(1, 3, &d);
    assert!(s.is_valid_word_or_template(&vec!['c', 'a', 't']));
    assert!(s.is_valid_word_or_template(&vec!['c', '_', '_']));
    assert!(!s.is_valid_word_or_template(&vec!['d', '_', '_']));
    assert!(!s.is_valid_word_or_template(&vec!['c', 'o', 'w']));
}

#[test]
fn is_valid_letter_checks_both_probes() {
    let d = dict_of(&["ab", "ba"]);
    let s = MagicSquare::empty(2, 2, &d);
    assert!(s.is_valid_letter(0, 0, 'a'));
    assert!(s.is_valid_letter(0, 0, 'b'));
    assert!(!s.is_valid_letter(0, 0, 'c'));
}

#[test]
fn unsolvable_when_letters_clash_across_row_and_column() {
    // row words exist and column words exist, but they cannot agree
    let d = dict_of(&["ab", "cd"]);
    let mut s = MagicSquare::empty(2, 2, &d);
    let r = s.fill();
    assert!(r.is_err());
    for i in 0..2 {
        for j in 0..2 {
            assert_eq!(s.get(i, j), '_');
        }
    }
}

#[test]
fn larger_square_fills_completely() {
    let d = dict_of(&["aaa", "aab", "aba", "baa", "abb", "bab", "bba", "bbb"]);
    let mut s = MagicSquare::empty(3, 3, &d);
    assert_eq!(s.fill(), Ok(()));
    for i in 0..3 {
        assert!(d.contains(row_string(&s, i).as_str()));
    }
    for j in 0..3 {
        assert!(d.contains(col_string(&s, j).as_str()));
    }
    assert_eq!(row_string(&s, 0), "aaa");
}
