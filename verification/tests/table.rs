use cobill::amount::{format_amount, parse_amount};
use cobill::bill::{BillItem, Bills, SplitResult, SplitResultItem};
use cobill::calc::calculate_from;
use cobill::complete::{suggest_names, typed_names};
use cobill::display::{display_width, width_after_strip, SimpleTable};
use cobill::edit::remove_comment_lines;
use cobill::io_error::IOError;
use cobill::who::Who;

fn strings(v: &[&str]) -> Vec<String> {
    v.iter().map(|s| s.to_string()).collect()
}

#[test]
fn amounts_are_written_without_trailing_zeros() {
    assert_eq!(format_amount(3000), "30");
    assert_eq!(format_amount(2580), "25.8");
    assert_eq!(format_amount(3333), "33.33");
    assert_eq!(format_amount(5), "0.05");
    assert_eq!(format_amount(-150), "-1.5");
    assert_eq!(format_amount(0), "0");
    assert_eq!(format_amount(i64::MIN), "-92233720368547758.08");
}

#[test]
fn amounts_are_read_to_the_hundredth() {
    assert_eq!(parse_amount("30"), Some(3000));
    assert_eq!(parse_amount("25.8"), Some(2580));
    assert_eq!(parse_amount("-0.05"), Some(-5));
    assert_eq!(parse_amount("+7.125"), Some(713));
    assert_eq!(parse_amount("7.124"), Some(712));
    assert_eq!(parse_amount(".5"), Some(50));
    assert_eq!(parse_amount("3."), Some(300));
    assert_eq!(parse_amount(""), None);
    assert_eq!(parse_amount("."), None);
    assert_eq!(parse_amount("abc"), None);
    assert_eq!(parse_amount("1,5"), None);
    assert_eq!(parse_amount("99999999999999999999"), None);
}

#[test]
fn amounts_with_exponents() {
    assert_eq!(parse_amount("1e3"), Some(100000));
    assert_eq!(parse_amount("2.5E1"), Some(2500));
    assert_eq!(parse_amount(".5e1"), Some(500));
    assert_eq!(parse_amount("1e+2"), Some(10000));
    assert_eq!(parse_amount("1e-3"), Some(0));
    assert_eq!(parse_amount("5e-3"), Some(1));
    assert_eq!(parse_amount("-5e-3"), Some(-1));
    assert_eq!(parse_amount("123456789012345678901234567890e-28"), Some(1235));
    assert_eq!(parse_amount("0e99999999999999999999"), Some(0));
    assert_eq!(parse_amount("1e-99999999999999999999"), Some(0));
    assert_eq!(parse_amount("1e99999999999999999999"), None);
    assert_eq!(parse_amount("1e20"), None);
    assert_eq!(parse_amount("1e"), None);
    assert_eq!(parse_amount("e3"), None);
    assert_eq!(parse_amount("1e3.5"), None);
    assert_eq!(parse_amount("inf"), None);
    assert_eq!(parse_amount("NaN"), None);
}

#[test]
fn table_reads_exponent_amounts() {
    let bills = Bills::from_table_str("Ann | 1e3 | Bob | Gift\n");
    let b = bills.get_all_items().values().next().unwrap();
    assert_eq!(b.paid, 100000);
}

#[test]
fn amount_read_back_from_writing() {
    for c in [0i64, 1, 9, 10, 99, 100, 2580, 3333, -1, -2580, i64::MAX, i64::MIN] {
        assert_eq!(parse_amount(&format_amount(c)), Some(c));
    }
}

#[test]
fn display_width_counts_columns() {
    assert_eq!(display_width("abc"), 3);
    assert_eq!(display_width(""), 0);
    assert_eq!(display_width("é"), 2);
    assert_eq!(display_width("中文"), 4);
    assert_eq!(display_width("\x1b[31mab\x1b[0m"), 2);
}

#[test]
fn width_after_stripping() {
    assert_eq!(width_after_strip(b"ab", "\x1b[31mab"), 2);
    assert_eq!(width_after_strip(&[0xff], "abc"), 3);
    assert_eq!(width_after_strip("é".as_bytes(), "x"), 2);
    assert_eq!(width_after_strip(b"", "anything"), 0);
}

#[test]
fn simple_table_pads_columns() {
    let mut t = SimpleTable::new(strings(&["a", "bb"]));
    t.push_item(strings(&["ccc"]));
    assert_eq!(t.get_column_widths(), &[3, 2]);
    assert_eq!(t.to_string(), "a    bb  \nccc      \n");
    t.insert_item(0, strings(&["x", "y", "z"]));
    assert_eq!(t.to_string(), "a    bb  \nx    y   \nccc      \n");
}

#[test]
fn simple_table_with_padding() {
    let mut t = SimpleTable::new_with_padding(strings(&["h", "k"]), 0);
    t.push_item(strings(&["long", "k"]));
    assert_eq!(t.to_string(), "h   k\nlongk\n");
    assert_eq!(t.get_column_widths(), &[4, 1]);
}

#[test]
fn bills_table_text() {
    let mut bills = Bills::default();
    bills.add_bill("Alice", "Food", 2000, vec!["Alice", "Bob"]);
    assert_eq!(
        bills.table(),
        "#  Who    |  Paid  |  Split       |  Reason  \n   Alice  |  20    |  Alice, Bob  |  Food    \n"
    );
}

#[test]
fn bills_table_sorted_by_amount() {
    let mut bills = Bills::default();
    bills.add_bill("A", "small", 100, vec!["B"]);
    bills.add_bill("B", "big", 900, vec!["A"]);
    bills.add_bill("C", "mid", 550, vec!["A", "B"]);
    let text = bills.table();
    let lines: Vec<&str> = text.lines().collect();
    assert_eq!(lines.len(), 4);
    assert!(lines[1].contains("big"));
    assert!(lines[2].contains("mid"));
    assert!(lines[3].contains("small"));
}

#[test]
fn table_reads_back() {
    let mut bills = Bills::default();
    bills.add_bill("Alice", "Food", 2000, vec!["Alice", "Bob"]);
    bills.add_bill("Bob", "Taxi ride", 1575, vec!["Carol"]);
    bills.add_bill("Carol", "", 5, vec![]);
    let back = Bills::from_table_str(&bills.table());
    let mut got: Vec<(String, String, i64, Vec<String>)> = back
        .get_all_items()
        .values()
        .map(|b| (b.who_paid.name().clone(), b.reason.clone(), b.paid, b.split.iter().map(|w| w.name().clone()).collect()))
        .collect();
    got.sort();
    assert_eq!(
        got,
        vec![
            ("Alice".to_string(), "Food".to_string(), 2000, vec!["Alice".to_string(), "Bob".to_string()]),
            ("Bob".to_string(), "Taxi ride".to_string(), 1575, vec!["Carol".to_string()]),
            ("Carol".to_string(), "".to_string(), 5, vec![]),
        ]
    );
}

#[test]
fn table_lines_that_are_not_bills_are_skipped() {
    let text = "# comment | a | b | c\n\n  only | three | cells\nDan | 12.5 | Eve,  ,Fay | Cake\nEd | x | | \n";
    let bills = Bills::from_table_str(text);
    let mut got: Vec<(String, i64, Vec<String>, String)> = bills
        .get_all_items()
        .values()
        .map(|b| (b.who_paid.name().clone(), b.paid, b.split.iter().map(|w| w.name().clone()).collect(), b.reason.clone()))
        .collect();
    got.sort();
    assert_eq!(
        got,
        vec![
            ("Dan".to_string(), 1250, vec!["Eve".to_string(), "Fay".to_string()], "Cake".to_string()),
            ("Ed".to_string(), 0, vec![], "".to_string()),
        ]
    );
}

#[test]
fn bill_ids_are_version_four_uuids() {
    let mut bills = Bills::default();
    let id = bills.add_bill("A", "x", 1, vec!["B"]);
    assert_eq!((id >> 76) & 0xf, 4);
    assert_eq!((id >> 62) & 0x3, 2);
    let id2 = bills.add_item(BillItem { who_paid: Who::new("B"), reason: "y".to_string(), paid: 2, split: vec![] });
    assert_ne!(id, id2);
    assert_eq!(bills.get_item(&id2).unwrap().paid, 2);
}

#[test]
fn bills_update_and_get() {
    let mut bills = Bills::default();
    let id = bills.add_bill("A", "x", 100, vec!["B"]);
    assert!(bills.update_item(&id, BillItem { who_paid: Who::new("C"), reason: "z".to_string(), paid: 7, split: vec![Who::new("D")] }));
    assert_eq!(bills.get_item(&id).unwrap().who_paid.name(), "C");
    assert!(!bills.update_item(&(id ^ 1), BillItem { who_paid: Who::new("Q"), reason: String::new(), paid: 0, split: vec![] }));
    if let Some(b) = bills.get_item_mut(&id) {
        b.paid = 9;
    }
    assert_eq!(bills.get_item(&id).unwrap().paid, 9);
    assert!(bills.get_item(&(id ^ 1)).is_none());
    assert!(bills.delete_item(&(id ^ 1)).is_none());
}

#[test]
fn settlement_table_text() {
    let mut bills = Bills::default();
    bills.add_bill("A", "BBQ", 9000, vec!["A", "B", "C"]);
    bills.add_bill("B", "Water", 2100, vec!["A", "B", "C"]);
    let result = calculate_from(bills).unwrap();
    let t = result.settlement_table();
    assert_eq!(
        t.to_string(),
        "Who  |   Should Pay  |   To  \nB    ->  23          ->  A   \nC    ->  30          ->  A   \nC    ->  7           ->  B   \n"
    );
}

#[test]
fn split_result_records() {
    let mut r = SplitResult::default();
    r.add_bill(Who::new("B"), Who::new("A"), 100, "x".to_string());
    r.add_bill(Who::new("A"), Who::new("C"), 50, "y".to_string());
    r.add_bill(Who::new("B"), Who::new("C"), 25, "z".to_string());
    let all = r.get_all_bills();
    assert_eq!(all.len(), 2);
    assert_eq!(all[0].0.name(), "A");
    assert_eq!(all[1].0.name(), "B");
    assert_eq!(all[1].1.len(), 2);
    assert_eq!(all[1].1[1].bill, 25);
    let old = r.update_bills(Who::new("A"), vec![SplitResultItem { payee: Who::new("D"), bill: 1, reason: "w".to_string() }]);
    assert_eq!(old.unwrap()[0].bill, 50);
    assert_eq!(r.get_bills(&Who::new("A")).unwrap()[0].bill, 1);
    if let Some(v) = r.get_bills_mut(&Who::new("B")) {
        v.clear();
    }
    assert_eq!(r.get_bills(&Who::new("B")).unwrap().len(), 0);
    assert!(r.delete_bills(&Who::new("B")).is_some());
    assert!(r.delete_bills(&Who::new("B")).is_none());
    assert!(!r.contains_payer(&Who::new("B")));
    r.clear_bills();
    assert_eq!(r.get_all_bills().len(), 0);
}

#[test]
fn split_result_final() {
    let mut r = SplitResult::default();
    r.set_final_result(vec![((Who::new("A"), Who::new("B")), 10), ((Who::new("B"), Who::new("C")), 20)]);
    assert_eq!(r.get_final_result_item(Who::new("B"), Who::new("C")), Some(20));
    assert_eq!(r.get_final_result_item(Who::new("C"), Who::new("B")), None);
    r.get_final_result_mut()[0].1 = 11;
    assert_eq!(r.get_final_result()[0].1, 11);
    r.clear_final_result();
    assert_eq!(r.get_final_result().len(), 0);
}

#[test]
fn comment_lines_are_removed() {
    assert_eq!(remove_comment_lines("# header\nline1\r\n  # c\nline2\n", "#"), "line1\nline2");
    assert_eq!(remove_comment_lines("", "#"), "");
    assert_eq!(remove_comment_lines("a\n\nb", "#"), "a\n\nb");
    assert_eq!(remove_comment_lines("// x\ny", "//"), "y");
}

#[test]
fn edited_table_reads_back() {
    let mut bills = Bills::default();
    bills.add_bill("Alice", "Food", 2000, vec!["Alice", "Bob"]);
    let edited = remove_comment_lines(&bills.table(), "#");
    let back = Bills::from_table_str(&edited);
    assert_eq!(back.get_all_items().len(), 1);
    let b = back.get_all_items().values().next().unwrap();
    assert_eq!(b.who_paid.name(), "Alice");
    assert_eq!(b.paid, 2000);
    assert_eq!(b.reason, "Food");
}

#[test]
fn names_typed_after_for_flag() {
    let words = strings(&["cobill", "add", "Alice", "-f", "Bob", "Carol"]);
    assert_eq!(typed_names(&words, 6), Some(strings(&["Bob", "Carol"])));
    assert_eq!(typed_names(&words, 5), Some(strings(&["Bob"])));
    assert_eq!(typed_names(&words, 3), None);
    let words2 = strings(&["cobill", "add", "A", "--for", "B", "-p", "10", "-f", "C"]);
    assert_eq!(typed_names(&words2, 9), Some(strings(&["B", "C"])));
}

#[test]
fn suggested_names_skip_typed() {
    let members = strings(&["Alice", "Bob", "Carol"]);
    assert_eq!(suggest_names(&members, &strings(&["Bob"])), strings(&["Alice", "Carol"]));
    assert_eq!(suggest_names(&members, &vec![]), members);
}

#[test]
fn io_error_carries_error() {
    let e = IOError::new(std::io::Error::new(std::io::ErrorKind::NotFound, "gone"));
    assert_eq!(e.inner().kind(), std::io::ErrorKind::NotFound);
    let f: IOError = std::io::Error::new(std::io::ErrorKind::Other, "x").into();
    assert_eq!(f.inner().to_string(), "x");
}

#[test]
fn who_conversions() {
    let w: Who = String::from("Ann").into();
    assert_eq!(w.name(), "Ann");
    let s: String = w.clone().into();
    assert_eq!(s, "Ann");
    assert!(Who::new("Ann").same(&w));
    assert!(Who::new("Ann").before(&Who::new("Bob")));
    assert_eq!(w.to_string(), "Ann");
}
