//! The operations the command loop drives the tree with, and their
//! outcomes.  The loop itself reads lines and prints; it hands well-formed
//! [`Operation`] values to [`apply`] and prints the [`Outcome`] it gets
//! back.

use vstd::prelude::*;

use crate::record::User;
use crate::tree::BinaryTree;

verus! {

/// One parsed command line: store, look up, or delete a record.
pub enum Operation {
    Store(User),
    Find(User),
    Delete(User),
}

/// What one operation reports back to the user.
#[derive(Debug, PartialEq, Eq)]
pub enum Outcome {
    Stored,
    AlreadyStored,
    Found,
    Deleted,
    NotFound,
}

impl Outcome {
    /// The line the command loop prints for this outcome.
    pub fn text(&self) -> (s: &'static str)
        ensures
            s@ == match self {
                Outcome::Stored => "Stored"@,
                Outcome::AlreadyStored => "Already stored"@,
                Outcome::Found => "Found"@,
                Outcome::Deleted => "Deleted"@,
                Outcome::NotFound => "Not found"@,
            },
    {
        match self {
            Outcome::Stored => "Stored",
            Outcome::AlreadyStored => "Already stored",
            Outcome::Found => "Found",
            Outcome::Deleted => "Deleted",
            Outcome::NotFound => "Not found",
        }
    }
}

/// Run one operation against the tree: a store inserts the record, a find
/// leaves the tree as it is, a delete removes the record; the outcome says
/// whether the record was added, already present, found, deleted or absent.
pub fn apply(tree: &mut BinaryTree<User>, op: Operation) -> (res: Outcome)
    ensures
        match op {
            Operation::Store(u) => {
                &&& final(tree)@ == old(tree)@.insert(u@)
                &&& res == if old(tree)@.contains(u@) {
                    Outcome::AlreadyStored
                } else {
                    Outcome::Stored
                }
            },
            Operation::Find(u) => {
                &&& final(tree)@ == old(tree)@
                &&& res == if old(tree)@.contains(u@) {
                    Outcome::Found
                } else {
                    Outcome::NotFound
                }
            },
            Operation::Delete(u) => {
                &&& final(tree)@ == old(tree)@.remove(u@)
                &&& res == if old(tree)@.contains(u@) {
                    Outcome::Deleted
                } else {
                    Outcome::NotFound
                }
            },
        },
{
    match op {
        Operation::Store(u) => {
            if tree.insert(u) {
                Outcome::Stored
            } else {
                Outcome::AlreadyStored
            }
        },
        Operation::Find(u) => {
            if tree.find(u) {
                Outcome::Found
            } else {
                Outcome::NotFound
            }
        },
        Operation::Delete(u) => {
            if tree.delete(u) {
                Outcome::Deleted
            } else {
                Outcome::NotFound
            }
        },
    }
}

} // verus!
