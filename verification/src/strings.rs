//! Small helpers for building strings
use vstd::prelude::*;

verus! {

/// `String::push`: appends one character.
#[verifier::external_body]
pub(crate) fn string_push(s: &mut String, c: char)
    ensures
        final(s)@ == old(s)@.push(c),
{
    s.push(c);
}

/// A grid of cells drawn as text: one line per row, `X` for a filled cell
/// and `.` for an empty one, each line ending with a newline
pub open spec fn ascii_art(filled: spec_fn(int, int) -> bool, w: int, h: int) -> Seq<char>
    decreases h,
{
    if h <= 0 {
        Seq::empty()
    } else {
        ascii_art(filled, w, h - 1) + ascii_row(filled, w, h - 1) + seq!['\n']
    }
}

/// One row of `ascii_art`
pub open spec fn ascii_row(filled: spec_fn(int, int) -> bool, w: int, y: int) -> Seq<char> {
    Seq::new(
        w as nat,
        |x: int|
            if filled(y, x) {
                'X'
            } else {
                '.'
            },
    )
}

} // verus!
