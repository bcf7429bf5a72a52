use tusmo_solver::color::ResultColor::{Blue, Red, Yellow};
use tusmo_solver::color::ResultState;
use tusmo_solver::mask::MaskError;

#[test]
fn default_result_state() {
    let rs1 = ResultState::new(6);
    assert_eq!(rs1.to_string(), "rbbbbb");

    let rs2 = ResultState::new(9);
    assert_eq!(rs2.to_string(), "rbbbbbbbb");
}

#[test]
fn compare_result_state() {
    let mut rs1 = ResultState::new(6);
    rs1.update_with(b"mourir", b"manger").unwrap();
    assert_eq!(rs1.to_string(), "rbbbbr");

    let mut rs2 = ResultState::new(7);
    rs2.update_with(b"marines", b"manager").unwrap();
    assert_eq!(rs2.to_string(), "rrybyrb");

    // guess isn't actually a real word, but it will be fine
    let mut rs3 = ResultState::new(8);
    rs3.update_with(b"mozozzgz", b"montagne").unwrap();
    assert_eq!(rs3.to_string(), "rrbbbbyb");
}

#[test]
fn build_result_state() {
    let rs1 = ResultState::try_from("RBBYYR").unwrap();
    assert_eq!(rs1.state, vec![Red, Blue, Blue, Yellow, Yellow, Red]);

    let rs2 = ResultState::try_from("rrbbbbyb").unwrap();
    assert_eq!(rs2.state, vec![Red, Red, Blue, Blue, Blue, Blue, Yellow, Blue]);
}

#[test]
fn parse_display_roundtrip() {
    let rs = ResultState::try_from("RBBYYR").unwrap();
    assert_eq!(rs.to_string(), "rbbyyr");

    let rs2 = ResultState::try_from("rrybyrb").unwrap();
    assert_eq!(rs2.to_string(), "rrybyrb");
}

#[test]
fn parse_rejects_other_characters() {
    let e = ResultState::try_from("rbx").unwrap_err();
    assert!(matches!(
        e,
        tusmo_solver::color::ConvertError::InvalidChar('x')
    ));
}

#[test]
fn coloring_a_word_against_itself_is_all_exact() {
    let mut rs = ResultState::new(6);
    rs.update_with(b"manger", b"manger").unwrap();
    assert!(rs.complet());
    assert_eq!(rs.to_string(), "rrrrrr");
}

#[test]
fn exact_plus_misplaced_counts_shared_letters() {
    // marines vs manager: per letter, the smaller occurrence count summed
    // over the alphabet is 5 (m, a, r, n, e once each).
    let mut rs = ResultState::new(7);
    rs.update_with(b"marines", b"manager").unwrap();
    let s = rs.to_string();
    let marks = s.chars().filter(|&c| c == 'r' || c == 'y').count();
    assert_eq!(marks, 5);
}

#[test]
fn update_with_rejects_length_mismatch() {
    let mut rs = ResultState::new(6);
    let e = rs.update_with(b"mourir", b"manager").unwrap_err();
    assert!(matches!(e, MaskError::IncompatibleLen("update_with")));
    assert_eq!(rs.to_string(), "rbbbbb");
}

#[test]
fn state_id_is_the_base_three_key() {
    let rs = ResultState::try_from("rrybyrb").unwrap();
    // digits r=0, r=0, y=1, b=2, y=1, r=0, b=2 read most significant first
    assert_eq!(rs.state_id(), 146);

    let all_red = ResultState::try_from("rrrrrrr").unwrap();
    assert_eq!(all_red.state_id(), 0);
}
