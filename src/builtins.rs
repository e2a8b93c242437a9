//! The names of the commands that the shell runs itself.
use vstd::prelude::*;

use crate::text::chars_of;

verus! {

/// A command that the shell runs itself rather than from the search path.
#[derive(Clone, Copy, Debug, PartialEq, Eq, Structural)]
pub enum Builtin {
    Exit,
    Echo,
    Type,
    Pwd,
    Cd,
}

/// The builtin called `name`, if there is one.
pub open spec fn builtin_named(name: Seq<char>) -> Option<Builtin> {
    if name == seq!['e', 'x', 'i', 't'] {
        Some(Builtin::Exit)
    } else if name == seq!['e', 'c', 'h', 'o'] {
        Some(Builtin::Echo)
    } else if name == seq!['t', 'y', 'p', 'e'] {
        Some(Builtin::Type)
    } else if name == seq!['p', 'w', 'd'] {
        Some(Builtin::Pwd)
    } else if name == seq!['c', 'd'] {
        Some(Builtin::Cd)
    } else {
        None
    }
}

fn same_chars(a: &Vec<char>, b: &[char]) -> (r: bool)
    ensures
        r == (a@ == b@),
{
    if a.len() != b.len() {
        return false;
    }
    for i in 0..a.len()
        invariant
            a.len() == b.len(),
            forall|j: int| 0 <= j < i ==> a@[j] == b@[j],
    {
        if a[i] != b[i] {
            return false;
        }
    }
    assert(a@ =~= b@);
    true
}

impl Builtin {
    /// The builtin called `name`, if there is one.
    pub fn from_name(name: &str) -> (r: Option<Builtin>)
        ensures
            r == builtin_named(name@),
    {
        let cs = chars_of(name);
        if same_chars(&cs, &['e', 'x', 'i', 't']) {
            Some(Builtin::Exit)
        } else if same_chars(&cs, &['e', 'c', 'h', 'o']) {
            Some(Builtin::Echo)
        } else if same_chars(&cs, &['t', 'y', 'p', 'e']) {
            Some(Builtin::Type)
        } else if same_chars(&cs, &['p', 'w', 'd']) {
            Some(Builtin::Pwd)
        } else if same_chars(&cs, &['c', 'd']) {
            Some(Builtin::Cd)
        } else {
            None
        }
    }
}

/// Whether `s` names a builtin.
pub fn is_builtin(s: &str) -> (r: bool)
    ensures
        r == builtin_named(s@) is Some,
{
    Builtin::from_name(s).is_some()
}

} // verus!
