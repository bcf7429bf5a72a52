use tusmo_solver::dico::{collect_words, is_valid_word, DicoError};
use tusmo_solver::word::{Char, CharError, Word};

#[test]
fn char_use_flag_round_trip() {
    let mut c = Char::from_char('m').unwrap();
    assert!(!c.used());
    c.set_use(true);
    assert!(c.used());
    c.set_use(false);
    assert!(!c.used());
}

#[test]
fn char_rejects_non_letters() {
    let e = Char::from_char('!').unwrap_err();
    assert!(matches!(e, CharError::InvalidChar('!')));
    assert!(Char::from_char('A').is_err());
}

#[test]
fn word_iterates_its_letters() {
    let w = Word::new(String::from("manger")).unwrap();
    let mut it = w.chars();
    let mut out = String::new();
    while let Some(c) = it.next() {
        out.push(c);
    }
    assert_eq!(out, "manger");
}

#[test]
fn word_reports_the_first_bad_character() {
    let e = Word::new(String::from("man!er")).unwrap_err();
    assert!(matches!(e, CharError::InvalidChar('!')));
}

#[test]
fn valid_word_finds_the_offender() {
    assert!(is_valid_word("manger").is_ok());
    assert_eq!(is_valid_word("man2er").unwrap_err(), '2');
}

#[test]
fn collect_words_keeps_the_right_lengths() {
    let lines = vec![
        String::from("manger"),
        String::from("mange"),
        String::from("moudre"),
        String::from("montagne"),
    ];
    let words = collect_words(&lines, 6).unwrap();
    assert_eq!(words, vec![b"manger".to_vec(), b"moudre".to_vec()]);
}

#[test]
fn collect_words_reports_invalid_lines() {
    let lines = vec![String::from("manger"), String::from("mang3r")];
    let e = collect_words(&lines, 6).unwrap_err();
    assert!(matches!(e, DicoError::InvalidChar(2, '3')));
}
