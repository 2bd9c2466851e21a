//! The record stored by the command-line collaborator: a date and a name,
//! ordered field by field (year, then month, then day, then name), the name
//! lexicographically by character.

use vstd::prelude::*;
use vstd::string::StrSliceExecFns;

use crate::order::Cmp;
use crate::order::TotalOrder;

verus! {

/// Lexicographic strict order on character sequences: the first differing
/// position decides by code point; a strict prefix comes first.
pub open spec fn chars_lt(a: Seq<char>, b: Seq<char>) -> bool
    decreases a.len(),
{
    if b.len() == 0 {
        false
    } else if a.len() == 0 {
        true
    } else if a[0] != b[0] {
        (a[0] as u32) < (b[0] as u32)
    } else {
        chars_lt(a.drop_first(), b.drop_first())
    }
}

/// No character sequence is lexicographically below itself.
pub proof fn lemma_chars_lt_irreflexive(a: Seq<char>)
    ensures
        !chars_lt(a, a),
    decreases a.len(),
{
    if a.len() > 0 {
        lemma_chars_lt_irreflexive(a.drop_first());
    }
}

/// The lexicographic order composes.
pub proof fn lemma_chars_lt_transitive(a: Seq<char>, b: Seq<char>, c: Seq<char>)
    requires
        chars_lt(a, b),
        chars_lt(b, c),
    ensures
        chars_lt(a, c),
    decreases a.len(),
{
    if a.len() > 0 && b.len() > 0 && c.len() > 0 && a[0] == b[0] && b[0] == c[0] {
        lemma_chars_lt_transitive(a.drop_first(), b.drop_first(), c.drop_first());
    }
}

/// A lower code point at the first differing position puts a sequence first.
proof fn lemma_chars_lt_at(a: Seq<char>, b: Seq<char>, i: int)
    requires
        0 <= i < a.len(),
        i < b.len(),
        forall|j: int| 0 <= j < i ==> a[j] == b[j],
        a[i] != b[i],
        (a[i] as u32) < (b[i] as u32),
    ensures
        chars_lt(a, b),
    decreases i,
{
    if i > 0 {
        lemma_chars_lt_at(a.drop_first(), b.drop_first(), i - 1);
    }
}

/// A strict prefix comes lexicographically first.
proof fn lemma_chars_lt_prefix(a: Seq<char>, b: Seq<char>)
    requires
        a.len() < b.len(),
        forall|j: int| 0 <= j < a.len() ==> a[j] == b[j],
    ensures
        chars_lt(a, b),
    decreases a.len(),
{
    if a.len() > 0 {
        lemma_chars_lt_prefix(a.drop_first(), b.drop_first());
    }
}

/// Three-way lexicographic comparison of two strings, character by
/// character.
fn str_compare(a: &String, b: &String) -> (c: Cmp)
    ensures
        match c {
            Cmp::Less => chars_lt(a@, b@),
            Cmp::Equal => a@ == b@,
            Cmp::Greater => chars_lt(b@, a@),
        },
{
    let a_len = a.as_str().unicode_len();
    let b_len = b.as_str().unicode_len();
    let shorter: usize = if a_len < b_len {
        a_len
    } else {
        b_len
    };
    let mut i: usize = 0;
    while i < shorter
        invariant
            0 <= i <= shorter,
            a_len == a@.len(),
            b_len == b@.len(),
            shorter == if a_len < b_len {
                a_len
            } else {
                b_len
            },
            forall|j: int| 0 <= j < i ==> a@[j] == b@[j],
        decreases shorter - i,
    {
        let ca = a.as_str().get_char(i);
        let cb = b.as_str().get_char(i);
        if ca != cb {
            if (ca as u32) < (cb as u32) {
                proof {
                    lemma_chars_lt_at(a@, b@, i as int);
                }
                return Cmp::Less;
            } else {
                proof {
                    lemma_chars_lt_at(b@, a@, i as int);
                }
                return Cmp::Greater;
            }
        }
        i += 1;
    }
    if a_len < b_len {
        proof {
            lemma_chars_lt_prefix(a@, b@);
        }
        Cmp::Less
    } else if b_len < a_len {
        proof {
            lemma_chars_lt_prefix(b@, a@);
        }
        Cmp::Greater
    } else {
        proof {
            assert(a@ =~= b@);
        }
        Cmp::Equal
    }
}

/// The mathematical view of a [`User`]: plain integers and the name's
/// characters.
pub struct UserKey {
    pub year: int,
    pub month: int,
    pub day: int,
    pub name: Seq<char>,
}

/// The record the command loop stores: a date and a full name.
#[derive(Clone, Debug)]
pub struct User {
    pub year: u16,
    pub month: u8,
    pub day: u8,
    pub name: String,
}

impl View for User {
    type V = UserKey;

    open spec fn view(&self) -> UserKey {
        UserKey {
            year: self.year as int,
            month: self.month as int,
            day: self.day as int,
            name: self.name@,
        }
    }
}

/// Field-by-field order on record views: year, then month, then day, then
/// name.
pub open spec fn key_before(a: UserKey, b: UserKey) -> bool {
    ||| a.year < b.year
    ||| (a.year == b.year && a.month < b.month)
    ||| (a.year == b.year && a.month == b.month && a.day < b.day)
    ||| (a.year == b.year && a.month == b.month && a.day == b.day && chars_lt(a.name, b.name))
}

impl TotalOrder for User {
    open spec fn before(a: UserKey, b: UserKey) -> bool {
        key_before(a, b)
    }

    proof fn before_irreflexive(a: UserKey) {
        lemma_chars_lt_irreflexive(a.name);
    }

    proof fn before_transitive(a: UserKey, b: UserKey, c: UserKey) {
        if chars_lt(a.name, b.name) && chars_lt(b.name, c.name) {
            lemma_chars_lt_transitive(a.name, b.name, c.name);
        }
    }

    fn compare_to(&self, other: &Self) -> (c: Cmp) {
        if self.year != other.year {
            if self.year < other.year {
                Cmp::Less
            } else {
                Cmp::Greater
            }
        } else if self.month != other.month {
            if self.month < other.month {
                Cmp::Less
            } else {
                Cmp::Greater
            }
        } else if self.day != other.day {
            if self.day < other.day {
                Cmp::Less
            } else {
                Cmp::Greater
            }
        } else {
            str_compare(&self.name, &other.name)
        }
    }
}

} // verus!
