use cobill::add_args::{parse_add_args, AddArgsError};

fn strings(v: &[&str]) -> Vec<String> {
    v.iter().map(|s| s.to_string()).collect()
}

#[test]
fn add_arguments_give_a_bill() {
    let b = parse_add_args(&strings(&["Alice", "--paid", "20", "--for", "Alice", "Bob", "--reason", "Food"])).ok().unwrap();
    assert_eq!(b.who_paid.name(), "Alice");
    assert_eq!(b.paid, 2000);
    assert_eq!(b.reason, "Food");
    let names: Vec<&str> = b.split.iter().map(|w| w.name().as_str()).collect();
    assert_eq!(names, vec!["Alice", "Bob"]);
}

#[test]
fn add_arguments_in_any_order() {
    let b = parse_add_args(&strings(&["-f", "Bob", "-m", "Taxi", "-p", "7.5", "Carol"])).ok().unwrap();
    assert_eq!(b.who_paid.name(), "Carol");
    assert_eq!(b.paid, 750);
    assert_eq!(b.reason, "Taxi");
    assert_eq!(b.split.len(), 1);
}

#[test]
fn add_arguments_default_reason() {
    let b = parse_add_args(&strings(&["A", "-p", "1", "-f"])).ok().unwrap();
    assert_eq!(b.reason, "No reason");
    assert_eq!(b.split.len(), 0);
}

#[test]
fn add_arguments_missing_parts() {
    assert_eq!(parse_add_args(&strings(&["A", "-f", "B"])).err(), Some(AddArgsError::PaidRequired));
    assert_eq!(parse_add_args(&strings(&["A", "-p", "x", "-f", "B"])).err(), Some(AddArgsError::PaidRequired));
    assert_eq!(parse_add_args(&strings(&["A", "-p", "3"])).err(), Some(AddArgsError::ForMembersRequired));
    assert_eq!(parse_add_args(&strings(&["-p", "3", "-f", "B"])).err(), Some(AddArgsError::MemberRequired));
    assert_eq!(parse_add_args(&strings(&["A", "-p"])).err(), Some(AddArgsError::PaidRequired));
}

#[test]
fn add_amount_with_exponent() {
    let b = parse_add_args(&strings(&["A", "-p", "1e3", "-f", "B"])).ok().unwrap();
    assert_eq!(b.paid, 100000);
}
