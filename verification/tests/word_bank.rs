use radlibs::word_bank::WordBank;

fn s(text: &str) -> String {
    text.to_string()
}

#[test]
fn new_bank_knows_no_identifier() {
    let bank = WordBank::new();
    assert!(!bank.contains_key(&s("x")));
    assert!(!bank.contains_key(&s("")));
    assert_eq!(bank.pool_len(&s("x")), 0);
    assert!(!bank.is_persistent(&s("x")));
    assert_eq!(bank.first_word(&s("x")), None);
}

#[test]
fn inserted_identifier_has_an_empty_pool() {
    let mut bank = WordBank::new();
    bank.insert(s("x"), true);
    assert!(bank.contains_key(&s("x")));
    assert!(bank.is_persistent(&s("x")));
    assert_eq!(bank.pool_len(&s("x")), 0);
    assert_eq!(bank.first_word(&s("x")), None);
    assert!(!bank.contains_key(&s("y")));
}

#[test]
fn inserting_again_resets_the_entry() {
    let mut bank = WordBank::new();
    bank.insert(s("x"), true);
    bank.insert_word(&s("x"), s("cat"));
    bank.insert(s("x"), false);
    assert!(bank.contains_key(&s("x")));
    assert!(!bank.is_persistent(&s("x")));
    assert_eq!(bank.pool_len(&s("x")), 0);
}

#[test]
fn words_join_the_pool_in_order() {
    let mut bank = WordBank::new();
    bank.insert(s("x"), false);
    bank.insert_word(&s("x"), s("cat"));
    bank.insert_word(&s("x"), s("dog"));
    bank.insert_word(&s("x"), s("eel"));
    assert_eq!(bank.pool_len(&s("x")), 3);
    assert_eq!(bank.first_word(&s("x")), Some(s("cat")));
}

#[test]
fn a_word_joins_a_pool_only_once() {
    let mut bank = WordBank::new();
    bank.insert(s("x"), false);
    bank.insert_word(&s("x"), s("cat"));
    bank.insert_word(&s("x"), s("dog"));
    bank.insert_word(&s("x"), s("cat"));
    assert_eq!(bank.pool_len(&s("x")), 2);
    assert_eq!(bank.remove_first_word(&s("x")), Some(s("cat")));
    assert_eq!(bank.remove_first_word(&s("x")), Some(s("dog")));
    assert_eq!(bank.remove_first_word(&s("x")), None);
}

#[test]
fn a_word_for_an_unknown_identifier_is_not_stored() {
    let mut bank = WordBank::new();
    bank.insert_word(&s("x"), s("cat"));
    assert!(!bank.contains_key(&s("x")));
    assert_eq!(bank.pool_len(&s("x")), 0);
}

#[test]
fn first_word_leaves_the_pool_alone() {
    let mut bank = WordBank::new();
    bank.insert(s("x"), false);
    bank.insert_word(&s("x"), s("cat"));
    assert_eq!(bank.first_word(&s("x")), Some(s("cat")));
    assert_eq!(bank.first_word(&s("x")), Some(s("cat")));
    assert_eq!(bank.pool_len(&s("x")), 1);
}

#[test]
fn removing_the_first_word_keeps_the_entry() {
    let mut bank = WordBank::new();
    bank.insert(s("x"), true);
    bank.insert_word(&s("x"), s("cat"));
    assert_eq!(bank.remove_first_word(&s("x")), Some(s("cat")));
    assert!(bank.contains_key(&s("x")));
    assert!(bank.is_persistent(&s("x")));
    assert_eq!(bank.pool_len(&s("x")), 0);
    assert_eq!(bank.remove_first_word(&s("x")), None);
    assert_eq!(bank.remove_first_word(&s("y")), None);
}

#[test]
fn removed_identifier_is_gone() {
    let mut bank = WordBank::new();
    bank.insert(s("x"), false);
    bank.insert(s("y"), true);
    bank.insert(s("z"), false);
    bank.insert_word(&s("y"), s("cat"));
    bank.insert_word(&s("z"), s("dog"));
    bank.remove(&s("x"));
    assert!(!bank.contains_key(&s("x")));
    assert!(bank.contains_key(&s("y")));
    assert!(bank.contains_key(&s("z")));
    assert_eq!(bank.first_word(&s("y")), Some(s("cat")));
    assert_eq!(bank.first_word(&s("z")), Some(s("dog")));
    assert!(bank.is_persistent(&s("y")));
    bank.remove(&s("y"));
    assert!(!bank.contains_key(&s("y")));
    assert_eq!(bank.first_word(&s("z")), Some(s("dog")));
}

#[test]
fn removing_an_unknown_identifier_changes_nothing() {
    let mut bank = WordBank::new();
    bank.insert(s("x"), false);
    bank.insert_word(&s("x"), s("cat"));
    bank.remove(&s("y"));
    assert!(bank.contains_key(&s("x")));
    assert_eq!(bank.first_word(&s("x")), Some(s("cat")));
}

#[test]
fn pools_of_different_identifiers_are_apart() {
    let mut bank = WordBank::new();
    bank.insert(s("x"), false);
    bank.insert(s("y"), true);
    bank.insert_word(&s("x"), s("cat"));
    bank.insert_word(&s("y"), s("cat"));
    bank.insert_word(&s("y"), s("dog"));
    assert_eq!(bank.pool_len(&s("x")), 1);
    assert_eq!(bank.pool_len(&s("y")), 2);
    assert_eq!(bank.remove_first_word(&s("x")), Some(s("cat")));
    assert_eq!(bank.pool_len(&s("y")), 2);
    assert!(!bank.is_persistent(&s("x")));
    assert!(bank.is_persistent(&s("y")));
}

#[test]
fn identifiers_are_compared_as_whole_texts() {
    let mut bank = WordBank::new();
    bank.insert(s("@mood"), true);
    assert!(!bank.contains_key(&s("mood")));
    assert!(!bank.contains_key(&s("@mood ")));
    assert!(!bank.contains_key(&s("@Mood")));
    assert!(bank.contains_key(&s("@mood")));
}
