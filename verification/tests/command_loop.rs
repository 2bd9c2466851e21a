// The operation/outcome interface the command loop drives the tree with.

use ordered_tree::command::apply;
use ordered_tree::command::Operation;
use ordered_tree::command::Outcome;
use ordered_tree::record::User;
use ordered_tree::tree::BinaryTree;

fn user(year: u16, month: u8, day: u8, name: &str) -> User {
    User { year, month, day, name: name.to_string() }
}

#[test]
fn a_session_of_operations() {
    let mut t = BinaryTree::<User>::default();
    assert_eq!(
        apply(&mut t, Operation::Store(user(2024, 1, 1, "Ann Lee"))),
        Outcome::Stored
    );
    assert_eq!(
        apply(&mut t, Operation::Store(user(2024, 1, 1, "Ann Lee"))),
        Outcome::AlreadyStored
    );
    assert_eq!(
        apply(&mut t, Operation::Find(user(2024, 1, 1, "Ann Lee"))),
        Outcome::Found
    );
    assert_eq!(
        apply(&mut t, Operation::Find(user(2023, 5, 5, "Bob Kim"))),
        Outcome::NotFound
    );
    assert_eq!(
        apply(&mut t, Operation::Delete(user(2024, 1, 1, "Ann Lee"))),
        Outcome::Deleted
    );
    assert_eq!(
        apply(&mut t, Operation::Delete(user(2024, 1, 1, "Ann Lee"))),
        Outcome::NotFound
    );
}

#[test]
fn outcome_lines_match_the_loop_vocabulary() {
    assert_eq!(Outcome::Stored.text(), "Stored");
    assert_eq!(Outcome::AlreadyStored.text(), "Already stored");
    assert_eq!(Outcome::Found.text(), "Found");
    assert_eq!(Outcome::Deleted.text(), "Deleted");
    assert_eq!(Outcome::NotFound.text(), "Not found");
}
