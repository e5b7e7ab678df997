use cobill::complete::{complete_add, complete_edit, complete_ls, filling_argument_first, strip_typed_arguments, typing_argument, Completion};

fn strings(v: &[&str]) -> Vec<String> {
    v.iter().map(|s| s.to_string()).collect()
}

fn flag_names(c: Completion) -> Vec<String> {
    match c {
        Completion::Flags(v) => v.into_iter().map(|(f, _)| f).collect(),
        other => panic!("expected flags, got {:?}", other),
    }
}

#[test]
fn add_right_after_command_offers_everyone() {
    let members = strings(&["Alice", "Bob"]);
    let r = complete_add(&strings(&["cobill", "add"]), 2, "add", "", &members);
    assert_eq!(r, Completion::Names(members.clone()));
}

#[test]
fn add_value_of_amount_or_reason_offers_nothing() {
    let members = strings(&["Alice"]);
    let words = strings(&["cobill", "add", "Alice", "-p"]);
    assert_eq!(complete_add(&words, 4, "-p", "", &members), Completion::Nothing);
    let words = strings(&["cobill", "add", "Alice", "--reason"]);
    assert_eq!(complete_add(&words, 4, "--reason", "", &members), Completion::Nothing);
}

#[test]
fn add_after_for_offers_untyped_members() {
    let members = strings(&["Alice", "Bob", "Carol"]);
    let words = strings(&["cobill", "add", "Alice", "-f", "Bob"]);
    assert_eq!(complete_add(&words, 5, "Bob", "", &members), Completion::Names(strings(&["Alice", "Carol"])));
}

#[test]
fn add_typing_flag_offers_untyped_flags() {
    let words = strings(&["cobill", "add", "Alice", "-p", "5"]);
    let r = complete_add(&words, 5, "5", "-", &vec![]);
    assert_eq!(flag_names(r), strings(&["--paid", "-r", "--reason", "-f", "--for"]));
}

#[test]
fn add_amount_flag_given_twice_is_not_a_value_slot() {
    let words = strings(&["cobill", "add", "A", "-p", "5", "-p"]);
    let r = complete_add(&words, 6, "-p", "-", &vec![]);
    assert_eq!(flag_names(r), strings(&["--paid", "-r", "--reason", "-f", "--for"]));
    assert_eq!(complete_add(&words, 6, "-p", "x", &vec![]), Completion::Nothing);
}

#[test]
fn edit_completion() {
    let words = strings(&["cobill", "edit", "-e"]);
    assert_eq!(complete_edit(&words, "-e", ""), Completion::Names(strings(&["vi", "vim", "nvim", "helix", "nano"])));
    let words = strings(&["cobill", "edit"]);
    assert_eq!(flag_names(complete_edit(&words, "edit", "-")), strings(&["-e", "--editor"]));
    assert_eq!(complete_edit(&words, "edit", "x"), Completion::Nothing);
}

#[test]
fn ls_completion() {
    assert_eq!(flag_names(complete_ls("-")), strings(&["-O", "--optimize"]));
    assert_eq!(complete_ls(""), Completion::Nothing);
}

#[test]
fn completion_helpers() {
    let words = strings(&["cobill", "add", "-p"]);
    assert!(filling_argument_first(&words, "-p", &strings(&["-p", "--paid"])));
    assert!(!filling_argument_first(&words, "-p", &strings(&["-r", "--reason"])));
    assert!(!filling_argument_first(&strings(&["add", "-p", "1", "--paid"]), "--paid", &strings(&["-p", "--paid"])));
    assert!(typing_argument("--x"));
    assert!(!typing_argument("x"));
    let kept = strip_typed_arguments(&words, vec![("-p".to_string(), "a".to_string()), ("-r".to_string(), "b".to_string())]);
    assert_eq!(kept, vec![("-r".to_string(), "b".to_string())]);
}

#[test]
fn add_answers_without_looking_at_words() {
    let members = strings(&["Alice"]);
    assert_eq!(complete_add(&strings(&["cobill", "add"]), 7, "add", "", &members), Completion::Names(members.clone()));
    assert_eq!(complete_add(&strings(&["cobill", "add", "A", "-p"]), 9, "-p", "", &members), Completion::Nothing);
}
