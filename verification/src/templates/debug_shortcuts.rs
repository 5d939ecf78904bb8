//! The listing template: the placeholders, then the other shortcuts.

use vstd::prelude::*;

use crate::deserialise::{owner_printable, ListDebug, Print};
use crate::parser::ShortcutOwner;
use crate::templates::{Consumer, PreallocLen, PreallocPush};

verus! {

/// Writes the listing of the shortcuts.
pub struct Wrapper();

impl<'a, 'b> PreallocLen<&'b ShortcutOwner<'a>> for Wrapper {
    open spec fn ready(&self, owner: &'b ShortcutOwner<'a>) -> bool {
        owner_printable(owner)
    }

    open spec fn writes(&self, owner: &'b ShortcutOwner<'a>, text: Seq<char>) -> bool {
        text == ListDebug(owner).printed()
    }

    fn len(&self, owner: &'b ShortcutOwner<'a>) -> (n: usize) {
        let n = ListDebug(owner).string_len();
        assert(self.writes(owner, ListDebug(owner).printed()));
        n
    }
}

impl<'a, 'b, U: Consumer> PreallocPush<&'b ShortcutOwner<'a>, U> for Wrapper {
    fn pipe(&self, owner: &'b ShortcutOwner<'a>, pipe: &mut U) {
        let text = ListDebug(owner).to_string_custom();
        pipe.consume(text.as_str());
        assert(self.writes(owner, text@));
    }
}

} // verus!
