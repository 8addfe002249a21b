//! Building the text of a picture character by character.

use vstd::prelude::*;

verus! {

/// The ruler that closes a row of `width` cells: `+---` for each cell, then
/// `+` and a line break.
pub open spec fn ruler(width: nat) -> Seq<char>
    decreases width,
{
    if width == 0 {
        seq!['+', '\n']
    } else {
        seq!['+', '-', '-', '-'] + ruler((width - 1) as nat)
    }
}

/// Appends `c` to `text`.
///
/// Stands for `String::push` of the standard library, which appends the
/// given character to the end of the string: the characters so far stay and
/// `c` follows them.
#[verifier::external_body]
pub(crate) fn push_char(text: &mut String, c: char)
    ensures
        final(text)@ == old(text)@.push(c),
{
    text.push(c);
}

/// Appends the ruler for `width` cells to `text`.
pub(crate) fn push_ruler(text: &mut String, width: u8)
    ensures
        final(text)@ == old(text)@ + ruler(width as nat),
{
    let mut i: u8 = 0;
    while i < width
        invariant
            i <= width,
            text@ + ruler((width - i) as nat) == old(text)@ + ruler(width as nat),
        decreases width - i,
    {
        let ghost before = text@;
        push_char(text, '+');
        push_char(text, '-');
        push_char(text, '-');
        push_char(text, '-');
        assert(text@ + ruler((width - i - 1) as nat) =~= before + ruler((width - i) as nat));
        i += 1;
    }
    let ghost before = text@;
    push_char(text, '+');
    push_char(text, '\n');
    assert(text@ =~= before + ruler(0));
}

} // verus!
