//! The few `String` operations of std that vstd leaves unspecified.
use vstd::prelude::*;

verus! {

/// `String::with_capacity`: a new, empty string. Only its contents are
/// stated; the capacity it reserved is not. It panics when the capacity in
/// bytes exceeds `isize::MAX`, which `requires` excludes.
#[verifier::external_body]
pub(crate) fn string_with_capacity(capacity: usize) -> (s: String)
    requires
        capacity <= isize::MAX,
    ensures
        s@ == Seq::<char>::empty(),
{
    String::with_capacity(capacity)
}

/// `String::push`: appends one character at the end. `requires` keeps the
/// string far below the `isize::MAX` bytes at which growing it panics (a
/// character takes at most four bytes).
#[verifier::external_body]
pub(crate) fn string_push(s: &mut String, c: char)
    requires
        4 * (old(s)@.len() + 1) <= isize::MAX,
    ensures
        final(s)@ == old(s)@.push(c),
{
    s.push(c)
}

/// `String::pop`: removes and returns the last character, or returns `None`
/// and leaves an empty string as it is.
#[verifier::external_body]
pub(crate) fn string_pop(s: &mut String) -> (r: Option<char>)
    ensures
        old(s)@.len() == 0 ==> r is None && final(s)@ == old(s)@,
        old(s)@.len() > 0 ==> r == Some(old(s)@.last()) && final(s)@ == old(s)@.drop_last(),
{
    s.pop()
}

} // verus!
