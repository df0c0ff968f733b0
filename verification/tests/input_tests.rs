use presentrs::input::{key_command, select_locale, NavCommand};

#[test]
fn recognized_keys_map_to_their_commands() {
    assert_eq!(key_command("ArrowLeft"), Some(NavCommand::PreviousStep));
    assert_eq!(key_command("PageUp"), Some(NavCommand::PreviousStep));
    assert_eq!(key_command("ArrowRight"), Some(NavCommand::NextStep));
    assert_eq!(key_command("PageDown"), Some(NavCommand::NextStep));
    assert_eq!(key_command("ArrowUp"), Some(NavCommand::PreviousSlide));
    assert_eq!(key_command("ArrowDown"), Some(NavCommand::NextSlide));
    assert_eq!(key_command("Home"), Some(NavCommand::FirstSlide));
    assert_eq!(key_command("n"), Some(NavCommand::ToggleNotes));
    assert_eq!(key_command("p"), Some(NavCommand::TogglePresent));
}

#[test]
fn unrecognized_keys_are_no_ops() {
    assert_eq!(key_command(""), None);
    assert_eq!(key_command("Escape"), None);
    assert_eq!(key_command("N"), None);
    assert_eq!(key_command("ArrowLeft "), None);
    assert_eq!(key_command("arrowleft"), None);
}

#[test]
fn a_still_offered_locale_is_kept() {
    let locales = vec![String::from("en"), String::from("de")];
    let kept = select_locale(Some(String::from("de")), &locales);
    assert_eq!(kept, Some(String::from("de")));
}

#[test]
fn a_withdrawn_locale_falls_back_to_the_first_offered() {
    let locales = vec![String::from("en"), String::from("de")];
    let fallen = select_locale(Some(String::from("fr")), &locales);
    assert_eq!(fallen, Some(String::from("en")));
}

#[test]
fn without_a_choice_the_first_offered_locale_is_taken() {
    let locales = vec![String::from("en"), String::from("de")];
    assert_eq!(select_locale(None, &locales), Some(String::from("en")));
}

#[test]
fn no_offered_locales_leave_none() {
    assert_eq!(select_locale(None, &Vec::new()), None);
    assert_eq!(select_locale(Some(String::from("en")), &Vec::new()), None);
}
