use magic_squares::dictionary::Dictionary;

fn dict_of(words: &[&str]) -> Dictionary {
    Dictionary::from_words(words.iter().map(|w| w.to_string()).collect())
}

#[test]
fn contains_exact_membership() {
    let d = dict_of(&["cat", "dog"]);
    assert!(d.contains("cat"));
    assert!(d.contains("dog"));
    assert!(!d.contains("cow"));
    assert!(!d.contains(""));
    assert!(!d.contains("ca"));
    assert!(!d.contains("cats"));
}

#[test]
fn contains_is_case_sensitive_on_the_stored_form() {
    let d = dict_of(&["cat"]);
    assert!(d.contains("cat"));
    assert!(!d.contains("CAT"));
    assert!(!d.contains("Cat"));
}

#[test]
fn from_words_lowercases_and_deduplicates() {
    let d = dict_of(&["CaT", "cat", "CAT", "Dog"]);
    assert!(d.contains("cat"));
    assert!(d.contains("dog"));
    assert_eq!(d.count_with_template("___"), 2);
}

#[test]
fn search_with_template_wildcards() {
    let d = dict_of(&["demon", "lemon", "human"]);
    let mut found = d.search_with_template("__mon");
    found.sort();
    assert_eq!(found, vec!["demon".to_string(), "lemon".to_string()]);
}

#[test]
fn search_with_template_is_case_insensitive_on_the_template() {
    let d = dict_of(&["demon", "lemon", "human"]);
    let mut found = d.search_with_template("__MON");
    found.sort();
    assert_eq!(found, vec!["demon".to_string(), "lemon".to_string()]);
}

#[test]
fn templates_of_differing_length_never_match() {
    let d = dict_of(&["demon", "lemon"]);
    assert_eq!(d.search_with_template("____"), Vec::<String>::new());
    assert_eq!(d.search_with_template("______"), Vec::<String>::new());
    assert_eq!(d.count_with_template(""), 0);
}

#[test]
fn all_wildcard_template_matches_every_word_of_its_length() {
    let d = dict_of(&["cat", "dog", "dig", "mouse"]);
    assert_eq!(d.count_with_template("___"), 3);
    assert_eq!(d.count_with_template("_____"), 1);
}

#[test]
fn exact_template_matches_only_itself() {
    let d = dict_of(&["cat", "car", "cog"]);
    assert_eq!(d.search_with_template("cat"), vec!["cat".to_string()]);
    assert_eq!(d.count_with_template("ca_"), 2);
    assert_eq!(d.count_with_template("c__"), 3);
    assert_eq!(d.count_with_template("x__"), 0);
}

#[test]
fn count_agrees_with_search_length() {
    let d = dict_of(&["cat", "car", "cog", "dog", "dot", "dig"]);
    for t in ["___", "c__", "d_g", "xyz", "____", "dot"] {
        let found = d.search_with_template(t);
        let count = d.count_with_template(t);
        assert_eq!(found.len(), count);
        assert_eq!(count > 0, !found.is_empty());
    }
}

#[test]
fn is_valid_word_checks_length_content_and_membership() {
    let d = dict_of(&["cat", "at", "ca!"]);
    assert!(magic_squares::dictionary::is_valid_word("cat", &d));
    // too short, though present
    assert!(!magic_squares::dictionary::is_valid_word("at", &d));
    // present and long enough, but not alphanumeric
    assert!(!magic_squares::dictionary::is_valid_word("ca!", &d));
    // alphanumeric and long enough, but absent
    assert!(!magic_squares::dictionary::is_valid_word("dog", &d));
}

#[test]
fn template_tree_root_matches_its_own_shape() {
    let d = dict_of(&["cat"]);
    let tree = magic_squares::dictionary::TemplateTree::from_dict(d);
    let root = tree.root();
    assert!(root.matches("____"));
    assert!(root.matches("____".to_uppercase().as_str()));
    assert!(!root.matches("___"));
    assert!(!root.matches("_____"));
    // a non-wildcard template character must match the stored word exactly
    assert!(!root.matches("a___"));
}
