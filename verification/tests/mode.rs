use dirlist::mode::{decide, notice, select_mode, Mode, Outcome};

#[test]
fn compact_is_the_mode_where_nothing_is_asked_for() {
    assert_eq!(select_mode(false, false, false), Mode::Compact);
}

#[test]
fn tree_goes_before_structured_before_detailed() {
    assert_eq!(select_mode(true, true, true), Mode::Tree);
    assert_eq!(select_mode(true, false, true), Mode::Tree);
    assert_eq!(select_mode(true, true, false), Mode::Tree);
    assert_eq!(select_mode(true, false, false), Mode::Tree);
    assert_eq!(select_mode(false, true, true), Mode::Structured);
    assert_eq!(select_mode(false, true, false), Mode::Structured);
    assert_eq!(select_mode(false, false, true), Mode::Detailed);
}

#[test]
fn a_path_that_exists_is_shown_in_the_mode_asked_for() {
    assert_eq!(decide(Some(true), false, false, false), Outcome::Show(Mode::Compact));
    assert_eq!(decide(Some(true), false, false, true), Outcome::Show(Mode::Detailed));
    assert_eq!(decide(Some(true), false, true, true), Outcome::Show(Mode::Structured));
    assert_eq!(decide(Some(true), true, true, true), Outcome::Show(Mode::Tree));
    assert_eq!(notice(decide(Some(true), true, false, false)), None);
}

#[test]
fn a_path_that_does_not_exist_gets_one_message_and_no_listing() {
    for tree in [false, true] {
        for structured in [false, true] {
            for detailed in [false, true] {
                let outcome = decide(Some(false), tree, structured, detailed);
                assert_eq!(outcome, Outcome::Missing);
                assert_eq!(
                    notice(outcome),
                    Some(String::from("\u{1b}[31mPath does not exists\u{1b}[39m"))
                );
            }
        }
    }
}

#[test]
fn a_path_of_unknown_existence_gets_its_own_message() {
    let outcome = decide(None, true, false, true);
    assert_eq!(outcome, Outcome::Unreadable);
    assert_eq!(notice(outcome), Some(String::from("\u{1b}[31merror reading directory\u{1b}[39m")));
    assert_ne!(notice(Outcome::Unreadable), notice(Outcome::Missing));
}
