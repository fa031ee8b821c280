//! The place of a dialog in the middle of the screen.

use vstd::prelude::*;

verus! {

/// How one side of the screen is shared out around a dialog that takes up
/// `percent` of it: the share before the dialog, the share of the dialog and
/// the share behind it, each in percent. The two margins are equal, and where
/// the rest cannot be halved, one percent of the side is left over.
pub open spec fn shares(percent: u16) -> (u16, u16, u16) {
    (((100 - percent) / 2) as u16, percent, ((100 - percent) / 2) as u16)
}

/// How one side of the screen is shared out around a dialog that takes up
/// `percent` of it.
pub fn centered_shares(percent: u16) -> (result: (u16, u16, u16))
    requires
        percent <= 100,
    ensures
        result == shares(percent),
        result.0 + result.1 + result.2 <= 100,
        result.0 + result.1 + result.2 >= 99,
{
    let margin = (100 - percent) / 2;
    (margin, percent, margin)
}

} // verus!
