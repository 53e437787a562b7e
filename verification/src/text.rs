//! Contracts for the standard string operations the tree relies on.

use vstd::prelude::*;

verus! {

/// `String::push` appends one character: afterwards the string reads as it
/// did before, followed by `ch`. This is taken from the standard library's
/// documentation and is not proved here.
pub assume_specification[ String::push ](s: &mut String, ch: char)
    ensures
        final(s)@ == old(s)@.push(ch),
;

/// `String::pop` removes the last character and returns it. On an empty
/// string it returns `None` and the string stays empty. This is taken from
/// the standard library's documentation and is not proved here.
pub assume_specification[ String::pop ](s: &mut String) -> (last: Option<char>)
    ensures
        old(s)@.len() == 0 ==> last is None && final(s)@ == old(s)@,
        old(s)@.len() > 0 ==> last == Some(old(s)@.last()) && final(s)@ == old(s)@.drop_last(),
;

} // verus!
