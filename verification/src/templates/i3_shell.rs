//! The i3 template: a mode for each keyspace, its commands run through the
//! shell script.

use vstd::prelude::*;

use crate::deserialise::{I3Shell, Print};
use crate::keyspaces::{has_command_chord, keyspaces_of, lemma_keyspaces_exist, process, KeyspaceOwner};
use crate::parser::ShortcutOwner;
use crate::templates::{Consumer, PreallocLen, PreallocPush};

verus! {

/// Writes the i3 configuration of the shortcuts' keyspaces.
pub struct Wrapper();

impl<'a, 'b> PreallocLen<&'b ShortcutOwner<'a>> for Wrapper {
    open spec fn ready(&self, owner: &'b ShortcutOwner<'a>) -> bool {
        owner.wf() && has_command_chord(*owner)
    }

    open spec fn writes(&self, owner: &'b ShortcutOwner<'a>, text: Seq<char>) -> bool {
        exists|ko: KeyspaceOwner| keyspaces_of(ko, *owner) && text == I3Shell(&ko).printed()
    }

    fn len(&self, owner: &'b ShortcutOwner<'a>) -> (n: usize) {
        let ko = process(owner);
        proof {
            lemma_keyspaces_exist(ko, *owner);
        }
        let n = I3Shell(&ko).string_len();
        assert(self.writes(owner, I3Shell(&ko).printed()));
        n
    }
}

impl<'a, 'b, U: Consumer> PreallocPush<&'b ShortcutOwner<'a>, U> for Wrapper {
    fn pipe(&self, owner: &'b ShortcutOwner<'a>, pipe: &mut U) {
        let ko = process(owner);
        proof {
            lemma_keyspaces_exist(ko, *owner);
        }
        let text = I3Shell(&ko).to_string_custom();
        pipe.consume(text.as_str());
        assert(self.writes(owner, text@));
    }
}

} // verus!
