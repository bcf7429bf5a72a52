use tusmo_solver::color::ResultState;
use tusmo_solver::mask::{Mask, MaskError};
use tusmo_solver::select::Score;

fn dico(words: &[&[u8]]) -> Vec<Vec<u8>> {
    words.iter().map(|w| w.to_vec()).collect()
}

#[test]
fn find_best_on_a_single_candidate() {
    let mask = Mask::new('m', 5);
    let d = dico(&[b"manger"]);
    let (idx, score) = mask.find_best(&d).unwrap();
    assert_eq!(idx, 0);
    assert_eq!(score, Score { sum: 1, count: 1 });
}

#[test]
fn find_best_is_deterministic_across_runs() {
    // The parallel scoring reduces by an exact comparison with ties to the
    // earlier index, so repeated runs agree however the work is scheduled.
    let mask = Mask::new('m', 5);
    let d = dico(&[
        b"manger", b"mander", b"moudre", b"membre", b"mettre", b"monter",
        b"marine", b"madame", b"mesure", b"montre",
    ]);
    let first = mask.find_best(&d).unwrap();
    for _ in 0..10 {
        assert_eq!(mask.find_best(&d).unwrap(), first);
    }
}

#[test]
fn find_best_breaks_ties_to_the_earliest_index() {
    // Each of these guesses narrows the field to one word for every
    // target, and only the target itself is a counted outcome, so all
    // three score an expected remainder of exactly one: the earliest
    // index must win the tie.
    let mask = Mask::new('m', 5);
    let d = dico(&[b"manger", b"mander", b"moudre"]);
    let (idx, score) = mask.find_best(&d).unwrap();
    assert_eq!(idx, 0);
    assert_eq!(score, Score { sum: 1, count: 1 });
}

#[test]
fn find_best_without_surviving_target_is_an_error() {
    // No candidate starts with the revealed letter: the surviving set is
    // empty and no average exists.
    let mask = Mask::new('m', 5);
    let d = dico(&[b"aaaaaa", b"bbbbbb"]);
    let e = mask.find_best(&d).unwrap_err();
    assert!(matches!(e, MaskError::NoCandidates));
}

#[test]
fn find_best_propagates_length_errors() {
    let mask = Mask::new('m', 5);
    let d = dico(&[b"manger", b"mange"]);
    let e = mask.find_best(&d).unwrap_err();
    assert!(matches!(e, MaskError::IncompatibleLen("match_with")));
}

#[test]
fn score_candidate_matches_a_hand_count() {
    // Dictionary of two words; guessing the target itself always leaves
    // exactly one survivor, counted because the report is all exact.
    let mask = Mask::new('m', 5);
    let d = dico(&[b"manger", b"morose"]);
    let valid = vec![true, true];
    let (sum, count) = mask.score_candidate(&d, &valid, 0);
    // target manger: all exact, 1 survivor, counted; target morose: the
    // colors of manger vs morose leave only morose, k = 1 but not exact,
    // so it is skipped.
    assert_eq!((sum, count), (1, 1));
}

#[test]
fn auto_play_reaches_the_target() {
    // A driver round trip: guess, color against the hidden word, update,
    // filter, repeat; the hidden word is never filtered out.
    let target: &[u8] = b"manger";
    let d = dico(&[b"manger", b"mander", b"moudre", b"membre"]);
    let mut mask = Mask::new('m', 5);
    let mut res = ResultState::new(6);
    let mut guesses = 0usize;
    loop {
        let (idx, _) = mask.find_best(&d).unwrap();
        res.update_with(&d[idx], target).unwrap();
        guesses += 1;
        if res.complet() {
            break;
        }
        mask.update(&d[idx], &res).unwrap();
        assert_eq!(mask.match_with(target).unwrap(), true);
        assert!(guesses < 10);
    }
    assert!(guesses <= 4);
}
