// Behaviour of the tree over the record type, and the record order itself.

use ordered_tree::order::Cmp;
use ordered_tree::order::TotalOrder;
use ordered_tree::record::User;
use ordered_tree::tree::BinaryTree;

fn user(year: u16, month: u8, day: u8, name: &str) -> User {
    User { year, month, day, name: name.to_string() }
}

#[test]
fn three_records_inserted_one_deleted() {
    let mut t = BinaryTree::<User>::default();
    assert!(t.insert(user(2024, 1, 1, "Ann Lee")));
    assert!(t.insert(user(2023, 5, 5, "Bob Kim")));
    assert!(t.insert(user(2025, 1, 1, "Cy Ng")));

    assert!(t.find(user(2024, 1, 1, "Ann Lee")));
    assert!(t.find(user(2023, 5, 5, "Bob Kim")));
    assert!(t.find(user(2025, 1, 1, "Cy Ng")));

    assert!(t.delete(user(2023, 5, 5, "Bob Kim")));
    assert!(!t.find(user(2023, 5, 5, "Bob Kim")));
    assert!(t.find(user(2024, 1, 1, "Ann Lee")));
    assert!(t.find(user(2025, 1, 1, "Cy Ng")));

    assert!(!t.delete(user(2023, 5, 5, "Bob Kim")));
}

#[test]
fn records_on_the_same_date_are_told_apart_by_name() {
    let mut t = BinaryTree::<User>::default();
    assert!(t.insert(user(2024, 6, 15, "Ann")));
    assert!(t.insert(user(2024, 6, 15, "Bob")));
    assert!(!t.insert(user(2024, 6, 15, "Ann")));
    assert!(t.find(user(2024, 6, 15, "Ann")));
    assert!(t.find(user(2024, 6, 15, "Bob")));
    assert!(t.delete(user(2024, 6, 15, "Ann")));
    assert!(!t.find(user(2024, 6, 15, "Ann")));
    assert!(t.find(user(2024, 6, 15, "Bob")));
}

#[test]
fn a_name_differs_from_its_extension() {
    let mut t = BinaryTree::<User>::default();
    assert!(t.insert(user(2024, 6, 15, "Ann")));
    assert!(t.insert(user(2024, 6, 15, "Ann Lee")));
    assert!(t.find(user(2024, 6, 15, "Ann")));
    assert!(t.find(user(2024, 6, 15, "Ann Lee")));
    assert!(!t.find(user(2024, 6, 15, "Ann L")));
}

#[test]
fn comparison_follows_the_field_order() {
    // year decides first
    assert!(matches!(
        user(2023, 12, 31, "Zoe").compare_to(&user(2024, 1, 1, "Abe")),
        Cmp::Less
    ));
    // then month
    assert!(matches!(
        user(2024, 2, 28, "Zoe").compare_to(&user(2024, 3, 1, "Abe")),
        Cmp::Less
    ));
    // then day
    assert!(matches!(
        user(2024, 3, 1, "Zoe").compare_to(&user(2024, 3, 2, "Abe")),
        Cmp::Less
    ));
    // the name only decides when the dates agree
    assert!(matches!(
        user(2024, 3, 1, "Abe").compare_to(&user(2024, 3, 1, "Zoe")),
        Cmp::Less
    ));
    assert!(matches!(
        user(2024, 3, 1, "Zoe").compare_to(&user(2024, 3, 1, "Abe")),
        Cmp::Greater
    ));
    assert!(matches!(
        user(2024, 3, 1, "Zoe").compare_to(&user(2024, 3, 1, "Zoe")),
        Cmp::Equal
    ));
    // a strict prefix of a name comes first
    assert!(matches!(
        user(2024, 3, 1, "Ann").compare_to(&user(2024, 3, 1, "Ann Lee")),
        Cmp::Less
    ));
    // the empty name comes before any other
    assert!(matches!(
        user(2024, 3, 1, "").compare_to(&user(2024, 3, 1, "A")),
        Cmp::Less
    ));
}

#[test]
fn records_with_empty_names_are_ordinary_values() {
    let mut t = BinaryTree::<User>::default();
    assert!(t.insert(user(2024, 1, 1, "")));
    assert!(!t.insert(user(2024, 1, 1, "")));
    assert!(t.find(user(2024, 1, 1, "")));
    assert!(t.delete(user(2024, 1, 1, "")));
    assert!(!t.find(user(2024, 1, 1, "")));
}
