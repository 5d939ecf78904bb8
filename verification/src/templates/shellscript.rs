//! The shell script template: a `case` over the hotkey given as argument.

use vstd::prelude::*;

use crate::deserialise::{owner_printable, Print, Shellscript};
use crate::parser::ShortcutOwner;
use crate::templates::{Consumer, PreallocLen, PreallocPush};

verus! {

/// Writes the shell script of the shortcuts.
pub struct Wrapper();

impl<'a, 'b> PreallocLen<&'b ShortcutOwner<'a>> for Wrapper {
    open spec fn ready(&self, owner: &'b ShortcutOwner<'a>) -> bool {
        owner_printable(owner)
    }

    open spec fn writes(&self, owner: &'b ShortcutOwner<'a>, text: Seq<char>) -> bool {
        text == Shellscript(owner).printed()
    }

    fn len(&self, owner: &'b ShortcutOwner<'a>) -> (n: usize) {
        let n = Shellscript(owner).string_len();
        assert(self.writes(owner, Shellscript(owner).printed()));
        n
    }
}

impl<'a, 'b, U: Consumer> PreallocPush<&'b ShortcutOwner<'a>, U> for Wrapper {
    fn pipe(&self, owner: &'b ShortcutOwner<'a>, pipe: &mut U) {
        let text = Shellscript(owner).to_string_custom();
        pipe.consume(text.as_str());
        assert(self.writes(owner, text@));
    }
}

} // verus!
