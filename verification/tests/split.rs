use cobill::bill::Bills;
use cobill::calc::calculate_from;
use cobill::error::BillSplitError;
use cobill::who::Who;

/// An amount given in units, as the whole hundredths the library counts in.
fn cents(units: f64) -> i64 {
    (units * 100.0).round() as i64
}

/// An amount in hundredths, in units.
fn units(c: i64) -> f64 {
    c as f64 / 100.0
}

fn w(name: &str) -> Who {
    Who::new(name)
}

fn has_pair(list: &Vec<((Who, Who), i64)>, payer: &str, payee: &str) -> bool {
    list.iter().any(|((a, b), _)| a.name() == payer && b.name() == payee)
}

fn pair_amount(list: &Vec<((Who, Who), i64)>, payer: &str, payee: &str) -> Option<i64> {
    list.iter().find(|((a, b), _)| a.name() == payer && b.name() == payee).map(|(_, v)| *v)
}

#[test]
fn test_no_zero_amount_transactions() {
    let mut bills = Bills::default();

    bills.add_bill("A", "Lunch", cents(30.), vec!["A", "B", "C"]);
    bills.add_bill("B", "Coffee", cents(30.), vec!["A", "B"]);

    let result = calculate_from(bills);
    assert!(result.is_ok(), "calculate should be success");
    let result = result.unwrap();

    let all_items = result.get_all_bills();
    for (payer, bills_list) in all_items {
        for bill in bills_list {
            assert_ne!(
                units(bill.bill),
                0.0,
                "There should be no transactions with amount 0 in the complete record: {} to {} amount is 0",
                payer.name(),
                bill.payee.name()
            );
        }
    }

    let final_result = result.get_final_result();
    for ((payer, payee), amount) in final_result {
        assert_ne!(
            units(*amount),
            0.0,
            "There should be no transactions with amount 0 in the simplified result: {} to {} amount is 0",
            payer.name(),
            payee.name()
        );
    }

    assert_eq!(final_result.len(), 2, "There should be 2 non-zero transactions");
    assert!(has_pair(final_result, "C", "A"), "Should contain transaction C->A");
    assert!(has_pair(final_result, "A", "B"), "Should contain transaction A->B");

    let c_to_a = pair_amount(final_result, "C", "A").unwrap();
    assert_eq!(units(c_to_a), 10.0, "C should pay A 10");

    let a_to_b = pair_amount(final_result, "A", "B").unwrap();
    assert_eq!(units(a_to_b), 5.0, "A should pay B 5");
}

#[test]
fn test_zero_amount_edge_cases() {
    let mut bills = Bills::default();

    bills.add_bill("A", "Dinner", cents(20.), vec!["A", "B"]);
    bills.add_bill("B", "Movie", cents(20.), vec!["A", "B"]);

    let result = calculate_from(bills);
    assert!(result.is_ok(), "calculate should be success");
    let result = result.unwrap();

    let all_items = result.get_all_bills();
    for (payer, bills_list) in all_items {
        for bill in bills_list {
            assert_ne!(
                units(bill.bill),
                0.0,
                "There should be no transactions with amount 0 in the complete record: {} to {} amount is 0",
                payer.name(),
                bill.payee.name()
            );
        }
    }

    let final_result = result.get_final_result();
    assert_eq!(
        final_result.len(),
        0,
        "The simplified result should be empty because all transaction amounts are 0"
    );
    assert!(!has_pair(final_result, "A", "B"), "Should not contain A->B zero amount transaction");
    assert!(!has_pair(final_result, "B", "A"), "Should not contain B->A zero amount transaction");
}

#[test]
fn test_items_count() {
    let mut bills = Bills::default();

    let id1 = bills.add_bill("A", "Lunch", cents(30.), vec!["A", "B"]);
    let id2 = bills.add_bill("B", "Coffee", cents(20.), vec!["B", "C"]);
    let id3 = bills.add_bill("C", "Snack", cents(15.), vec!["A", "C"]);

    assert_eq!(bills.get_all_items().len(), 3, "Should have 3 items");

    assert!(bills.contains_item(&id1), "Item 1 should exist");
    assert!(bills.contains_item(&id2), "Item 2 should exist");
    assert!(bills.contains_item(&id3), "Item 3 should exist");

    let removed = bills.delete_item(&id2);
    assert!(removed.is_some(), "Should remove item 2");
    assert_eq!(bills.get_all_items().len(), 2, "Should have 2 items after removal");

    assert!(!bills.contains_item(&id2), "Item 2 should not exist after removal");

    bills.clear_items();
    assert_eq!(bills.get_all_items().len(), 0, "Should have 0 items after clear");
}

#[test]
fn test_result() {
    let mut bills = Bills::default();

    bills.add_bill("A", "BBQ", cents(90.), vec!["A", "B", "C"]);
    bills.add_bill("B", "Water", cents(21.), vec!["A", "B", "C"]);

    let result = calculate_from(bills);
    assert!(result.is_ok(), "calculate should be success");
    let result = result.unwrap();

    let c_to_a = result.get_final_result_item(w("C"), w("A")).expect("Item C to A should be exist");
    assert_eq!(units(c_to_a), 30.0, "C should pay A 30 for BBQ");

    let c_to_b = result.get_final_result_item(w("C"), w("B")).expect("Item C to B should be exist");
    assert_eq!(units(c_to_b), 7.0, "C should pay B 7 for Water");

    let b_to_a = result.get_final_result_item(w("B"), w("A")).expect("Item B to A should be exist");
    assert_eq!(units(b_to_a), 23.0, "B should pay A 23 (30 - 7)");

    let final_result = result.get_final_result();
    assert_eq!(final_result.len(), 3, "Should have exactly 3 transactions");
}

#[test]
fn test_complex_bills() {
    let mut bills = Bills::default();

    bills.add_bill("A", "Dinner", cents(50.), vec!["B", "C"]);

    let result = calculate_from(bills);
    assert!(result.is_ok(), "calculate should be success");
    let result = result.unwrap();

    let b_to_a = result.get_final_result_item(w("B"), w("A")).expect("Item B to A should be exist");
    assert_eq!(units(b_to_a), 25.0, "B should pay A 25");

    let c_to_a = result.get_final_result_item(w("C"), w("A")).expect("Item C to A should be exist");
    assert_eq!(units(c_to_a), 25.0, "C should pay A 25");

    let final_result = result.get_final_result();
    assert_eq!(final_result.len(), 2, "Should have exactly 2 transactions");
}

#[test]
fn test_unrelated_bills() {
    let mut bills = Bills::default();

    bills.add_bill("A", "Lunch", cents(30.), vec!["A", "B", "C"]);
    bills.add_bill("B", "Coffee", cents(30.), vec!["A", "B"]);

    let result = calculate_from(bills);
    assert!(result.is_ok(), "calculate should be success");
    let result = result.unwrap();

    let c_to_a = result.get_final_result_item(w("C"), w("A"));
    assert!(c_to_a.is_some(), "C should pay A");
    assert_eq!(units(c_to_a.unwrap()), 10.0, "C should pay A 10");

    let c_to_b = result.get_final_result_item(w("C"), w("B"));
    assert!(c_to_b.is_none(), "C should not have any transaction with B");

    let a_to_b = result.get_final_result_item(w("A"), w("B"));
    assert!(a_to_b.is_some(), "A should pay B");
    assert_eq!(units(a_to_b.unwrap()), 5.0, "A should pay B 5 (15 - 10)");

    let final_result = result.get_final_result();
    assert_eq!(final_result.len(), 2, "Should have exactly 2 transactions");
}

#[test]
fn test_duplicate_split_members() {
    let mut bills = Bills::default();

    bills.add_bill("Alice", "Lunch", cents(60.), vec!["Bob", "Bob", "Charlie"]);

    let result = calculate_from(bills);
    assert!(result.is_err(), "Should return error for duplicate split members");
}

#[test]
fn test_negative_paid_amount() {
    let mut bills = Bills::default();

    bills.add_bill("Alice", "Refund?", cents(-30.), vec!["Alice", "Bob"]);

    let result = calculate_from(bills);
    assert!(result.is_err(), "Should return error for negative paid amount");
}

#[test]
fn test_rounding() {
    let mut bills = Bills::default();

    bills.add_bill("Alice", "Concert", cents(100.), vec!["Alice", "Bob", "Charlie"]);

    let result = calculate_from(bills);
    assert!(result.is_ok(), "calculate should be success");
    let result = result.unwrap();

    let bob_to_alice = result
        .get_final_result_item(w("Bob"), w("Alice"))
        .expect("Item Bob to Alice should be exist");
    assert_eq!(units(bob_to_alice), 33.33, "Bob should pay Alice 33.33");

    let charlie_to_alice = result
        .get_final_result_item(w("Charlie"), w("Alice"))
        .expect("Item Charlie to Alice should be exist");
    assert_eq!(units(charlie_to_alice), 33.33, "Charlie should pay Alice 33.33");

    let mut bills2 = Bills::default();
    bills2.add_bill("Bob", "Dinner", cents(51.6), vec!["Alice", "Bob"]);

    let result2 = calculate_from(bills2);
    assert!(result2.is_ok(), "calculate should be success");
    let result2 = result2.unwrap();

    let alice_to_bob = result2
        .get_final_result_item(w("Alice"), w("Bob"))
        .expect("Item Alice to Bob should be exist");
    assert_eq!(units(alice_to_bob), 25.8, "Alice should pay Bob 25.8");
}

#[test]
fn test_empty_bills() {
    let bills = Bills::default();
    let result = calculate_from(bills);
    assert!(result.is_ok(), "calculate should be success for empty bills");
    let result = result.unwrap();

    assert_eq!(result.get_all_bills().len(), 0, "Items should be empty for empty bills");
    assert_eq!(result.get_final_result().len(), 0, "Final result should be empty for empty bills");
}

#[test]
fn test_single_person_bill() {
    let mut bills = Bills::default();

    bills.add_bill("Alice", "Personal", cents(50.), vec!["Alice"]);

    let result = calculate_from(bills);
    assert!(result.is_ok(), "calculate should be success for single person bill");
    let result = result.unwrap();

    assert_eq!(result.get_final_result().len(), 0, "Should have no transactions for single person bill");
}

#[test]
fn test_split_not_include_payer() {
    let mut bills = Bills::default();

    bills.add_bill("Alice", "Gift", cents(100.), vec!["Bob", "Charlie"]);

    let result = calculate_from(bills);
    assert!(result.is_ok(), "calculate should be success when payer not in split");
    let result = result.unwrap();

    let bob_to_alice = result.get_final_result_item(w("Bob"), w("Alice")).expect("Bob should pay Alice");
    assert_eq!(units(bob_to_alice), 50.0, "Bob should pay Alice 50");

    let charlie_to_alice = result.get_final_result_item(w("Charlie"), w("Alice")).expect("Charlie should pay Alice");
    assert_eq!(units(charlie_to_alice), 50.0, "Charlie should pay Alice 50");
}

#[test]
fn test_large_number_of_people() {
    let mut bills = Bills::default();

    let people = vec!["A", "B", "C", "D", "E", "F", "G", "H", "I", "J"];
    bills.add_bill("A", "Group Dinner", cents(1000.), people.clone());

    let result = calculate_from(bills);
    assert!(result.is_ok(), "calculate should be success for large group");
    let result = result.unwrap();

    for person in &people {
        if *person != "A" {
            let amount = result
                .get_final_result_item(w(person), w("A"))
                .expect(&format!("{} should pay A", person));
            assert_eq!(units(amount), 100.0, "{} should pay A 100", person);
        }
    }

    assert_eq!(result.get_final_result().len(), 9, "Should have 9 transactions");
}

#[test]
fn duplicate_members_error_kind() {
    let mut bills = Bills::default();
    bills.add_bill("Alice", "Lunch", 6000, vec!["Bob", "Bob", "Charlie"]);
    assert_eq!(calculate_from(bills).err(), Some(BillSplitError::DuplicateSplitMembers));
}

#[test]
fn negative_amount_error_kind() {
    let mut bills = Bills::default();
    bills.add_bill("Alice", "Refund?", -3000, vec!["Alice", "Bob"]);
    assert_eq!(calculate_from(bills).err(), Some(BillSplitError::NegativePaidAmount));
}

#[test]
fn error_messages() {
    assert_eq!(BillSplitError::NegativePaidAmount.message(), "Paid amount cannot be negative");
    assert_eq!(BillSplitError::DuplicateSplitMembers.message(), "Duplicate split members found");
}

#[test]
fn records_carry_total_reason() {
    let mut bills = Bills::default();
    bills.add_bill("A", "BBQ", 9000, vec!["A", "B", "C"]);
    let result = calculate_from(bills).unwrap();
    let b = result.get_bills(&w("B")).expect("B should pay something");
    assert_eq!(b.len(), 1);
    assert_eq!(b[0].payee.name(), "A");
    assert_eq!(b[0].bill, 3000);
    assert_eq!(b[0].reason, "BBQ (Total)");
    assert!(result.get_bills(&w("A")).is_none());
    assert!(result.contains_payer(&w("C")));
    assert!(!result.contains_payer(&w("A")));
}

#[test]
fn settlement_balance_on_concrete_bills() {
    // Whatever the settlement between two people, what one pays the other less what the
    // other pays back is what they owe each other on balance.
    let mut bills = Bills::default();
    bills.add_bill("A", "Lunch", 3000, vec!["A", "B", "C"]);
    bills.add_bill("B", "Coffee", 3000, vec!["A", "B"]);
    bills.add_bill("C", "Taxi", 900, vec!["A", "C"]);
    let result = calculate_from(bills).unwrap();
    let get = |x: &str, y: &str| result.get_final_result_item(w(x), w(y)).unwrap_or(0);
    // A owes B 1500, B owes A 1000; C owes A 1000, A owes C 450.
    assert_eq!(get("A", "B") - get("B", "A"), 500);
    assert_eq!(get("C", "A") - get("A", "C"), 550);
    assert!(get("A", "B") == 0 || get("B", "A") == 0);
    assert_eq!(get("A", "A"), 0);
}

#[test]
fn own_bill_owes_nothing_concrete() {
    let mut bills = Bills::default();
    bills.add_bill("Z", "Self", 1234, vec!["Z"]);
    let result = calculate_from(bills).unwrap();
    assert_eq!(result.get_all_bills().len(), 0);
    assert_eq!(result.get_final_result().len(), 0);
}

#[test]
fn share_rounds_halves_up() {
    assert_eq!(cobill::amount::share(100, 3), 33);
    assert_eq!(cobill::amount::share(5, 2), 3);
    assert_eq!(cobill::amount::share(10000, 3), 3333);
    assert_eq!(cobill::amount::share(0, 4), 0);
}

#[test]
fn empty_split_owes_nothing() {
    let mut bills = Bills::default();
    bills.add_bill("A", "Nothing", 500, vec![]);
    let result = calculate_from(bills).unwrap();
    assert_eq!(result.get_final_result().len(), 0);
}

#[test]
fn members_sorted_and_unique() {
    let mut bills = Bills::default();
    bills.add_bill("Carol", "x", 100, vec!["Bob", "Alice"]);
    bills.add_bill("Alice", "y", 100, vec!["Carol", "Dave"]);
    assert_eq!(bills.get_members(), vec!["Alice", "Bob", "Carol", "Dave"]);
}

#[test]
fn total_fits_limits() {
    let mut bills = Bills::default();
    bills.add_bill("A", "big", i64::MAX, vec!["B"]);
    assert!(bills.total_fits());
    bills.add_bill("A", "more", 1, vec!["B"]);
    assert!(!bills.total_fits());
    let mut neg = Bills::default();
    neg.add_bill("A", "back", -5, vec!["B"]);
    neg.add_bill("A", "big", i64::MAX, vec!["B"]);
    assert!(neg.total_fits());
}
