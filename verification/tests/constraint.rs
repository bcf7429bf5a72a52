use tusmo_solver::letter_mask::LetterMask;
use tusmo_solver::mask::{FilterResult, Mask, MaskError};
use tusmo_solver::color::ResultState;

#[test]
fn red_char() {
    let a = LetterMask(1 << 0);
    assert_eq!(a.red_char(), Some(b'a'));

    let m = LetterMask(1 << 12);
    assert_eq!(m.red_char(), Some(b'm'));

    let z = LetterMask(1 << 25);
    assert_eq!(z.red_char(), Some(b'z'));

    let oops = LetterMask((1 << 6) + (1 << 18));
    assert_eq!(oops.red_char(), None);
}

#[test]
fn remove_never_empties_a_mask() {
    let mut two = LetterMask((1 << 0) | (1 << 1));
    two.remove(b'a');
    assert_eq!(two.red_char(), Some(b'b'));
    // the last letter cannot be taken away
    two.remove(b'b');
    assert_eq!(two.red_char(), Some(b'b'));

    let mut single = LetterMask(1 << 5);
    single.remove(b'f');
    assert_eq!(single.red_char(), Some(b'f'));
}

#[test]
fn update_then_target_still_matches() {
    // Whatever the guess, the hidden word survives its own color report.
    let mut rs = ResultState::new(6);
    rs.update_with(b"mourir", b"manger").unwrap();

    let mut mask = Mask::new('m', 5);
    mask.update(b"mourir", &rs).unwrap();
    assert_eq!(mask.match_with(b"manger").unwrap(), true);
}

#[test]
fn consistent_words_share_the_guess_colors() {
    // mander survives the constraint left by mourir vs manger, so coloring
    // mourir against mander gives the same report as against manger.
    let mut rs = ResultState::new(6);
    rs.update_with(b"mourir", b"manger").unwrap();
    assert_eq!(rs.to_string(), "rbbbbr");

    let mut mask = Mask::new('m', 5);
    mask.update(b"mourir", &rs).unwrap();
    assert_eq!(mask.match_with(b"mander").unwrap(), true);

    let mut rs2 = ResultState::new(6);
    rs2.update_with(b"mourir", b"mander").unwrap();
    assert_eq!(rs2.to_string(), "rbbbbr");
}

#[test]
fn update_twice_equals_once() {
    let mut rs = ResultState::new(6);
    rs.update_with(b"mourir", b"manger").unwrap();

    let mut once = Mask::new('m', 5);
    once.update(b"mourir", &rs).unwrap();

    let mut twice = once.clone();
    twice.update(b"mourir", &rs).unwrap();

    assert_eq!(once.mask, twice.mask);
    assert_eq!(once.count, twice.count);
}

#[test]
fn duplicate_letters_pin_the_budget_down() {
    // mozozzgz repeats z four times while montagne has none and o twice
    // while montagne has one: after the update no z may remain and o is
    // capped at one.
    let mut rs = ResultState::new(8);
    rs.update_with(b"mozozzgz", b"montagne").unwrap();
    assert_eq!(rs.to_string(), "rrbbbbyb");

    let mut mask = Mask::new('m', 7);
    mask.update(b"mozozzgz", &rs).unwrap();
    assert_eq!(mask.match_with(b"montagne").unwrap(), true);
    // a z anywhere is now impossible
    assert_eq!(mask.match_with(b"montagnz").unwrap(), false);
    // two o's exceed the exact budget of one
    assert_eq!(mask.match_with(b"moothgne").unwrap(), false);
}

#[test]
fn starter_constraint_after_update() {
    // After absorbing inseminee vs rrybrbyry the constraint fixes position
    // 0 to i, position 1 to n and position 4 to m.
    let rs = ResultState::try_from("rrybrbyry").unwrap();
    let mut mask = Mask::new('i', 8);
    mask.update(b"inseminee", &rs).unwrap();

    assert_eq!(mask.match_with(b"innsmetea").unwrap(), true);
    assert_eq!(mask.match_with(b"xnnsmetea").unwrap(), false);
    assert_eq!(mask.match_with(b"ixnsmetea").unwrap(), false);
    assert_eq!(mask.match_with(b"innsxetea").unwrap(), false);
}

#[test]
fn match_with_rejects_length_mismatch() {
    let mask = Mask::new('m', 5);
    let e = mask.match_with(b"mange").unwrap_err();
    assert!(matches!(e, MaskError::IncompatibleLen("match_with")));
}

#[test]
fn update_rejects_length_mismatch() {
    let rs = ResultState::new(6);
    let mut mask = Mask::new('m', 6);
    let e = mask.update(b"manger", &rs).unwrap_err();
    assert!(matches!(e, MaskError::IncompatibleLen("update")));
}

#[test]
fn filter_counts_and_singles_out_the_survivor() {
    let mut rs = ResultState::new(6);
    rs.update_with(b"mourir", b"manger").unwrap();
    let mut mask = Mask::new('m', 5);
    mask.update(b"mourir", &rs).unwrap();

    let dico: Vec<Vec<u8>> = vec![
        b"manger".to_vec(),
        b"mander".to_vec(),
        b"moudre".to_vec(),
    ];
    match mask.filter(&dico) {
        FilterResult::Count(k) => assert_eq!(k, 2),
        _ => panic!("expected a count"),
    }

    let small: Vec<Vec<u8>> = vec![b"manger".to_vec(), b"moudre".to_vec()];
    match mask.filter(&small) {
        FilterResult::Word(w) => assert_eq!(w, &b"manger".to_vec()),
        _ => panic!("expected the unique survivor"),
    }
}

#[test]
fn revert_from_restores_the_snapshot() {
    let base = Mask::new('m', 5);
    let mut work = base.clone();
    let mut rs = ResultState::new(6);
    rs.update_with(b"mourir", b"manger").unwrap();
    work.update(b"mourir", &rs).unwrap();
    assert_ne!(work.mask, base.mask);

    work.revert_from(&base);
    assert_eq!(work.mask, base.mask);
    assert_eq!(work.count, base.count);
}
