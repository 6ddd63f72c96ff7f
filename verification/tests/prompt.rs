use npd::prompt::answer;

#[test]
fn explicit_yes_or_no_wins_over_the_default() {
    for yes in ["y", "Y", "yes", "YES", " yes \n", "y\n"] {
        assert!(answer(yes, false), "{yes:?} should confirm");
        assert!(answer(yes, true), "{yes:?} should confirm");
    }
    for no in ["n", "N", "no", "NO", " no \n", "n\n"] {
        assert!(!answer(no, false), "{no:?} should decline");
        assert!(!answer(no, true), "{no:?} should decline");
    }
    for other in ["", "\n", "nope", "yep", "sure", "1"] {
        assert!(!answer(other, false), "{other:?} should take the no default");
        assert!(answer(other, true), "{other:?} should take the yes default");
    }
}
