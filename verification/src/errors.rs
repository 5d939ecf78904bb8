use vstd::prelude::*;

use crate::constants::{KEYCODES, MODIFIERS};
use crate::text::{concat, join, join_strs, push_str, views};

verus! {

pub const HEAD_INVALID_CLOSE: &'static str = "Unexpected bar '|'. Close the enumeration first with '}}'.";
pub const HEAD_NO_ESCAPING: &'static str =
    "You cannot escape characters with backslash '\\' in the hotkey definition portion.";
pub const HEAD_COMMA_OUTSIDE_BRACKETS: &'static str = "Unexpected comma ','. Type 'comma' for the key, ';' for a chord separator. ',' only has meaning inside an enumeration group '{{..}}'.";
pub const EXCLAIM_IN_HEAD: &'static str =
    "You are currently defining a head, not a placeholder.  Did you mean to use '|' instead?";
pub const BAR_IN_PLACEHOLDER: &'static str =
    "You are currently defining a placeholder, not a head.  Did you mean to use '!' instead?";
pub const MISSING_LBRACKET: &'static str =
    "Missing a second opening curly brace. Need '{{' to start an enumeration";
pub const MISSING_RBRACKET: &'static str =
    "Missing a second closing curly brace. Need '}}' to close an enumeration";
pub const BODY_BRACKET_NO_NEWLINE_BAR: &'static str = "A '|' here conflicts with starting a new entry.  Close the enumeration first with '}}'.\nIf you want a '|' as the first character in line try:\n- '\\n|' on the previous line or\n- '\\|' escaping it on this line.";
pub const DOUBLE_LBRACKET_IN_BODY_PERMUTATION_GROUP: &'static str = "You cannot have '{{' inside a permutation group. Either you forgot to close the previous permutation group or you need to escape it like '\\{\\{'.";
pub const END_BEFORE_HEAD_CLOSE: &'static str = "You did not close the head. Please add a '|'. Alternatively, if you placed '|' intentionally at the start of a line, you may wish to consider the following:\n- '{|\\||}' (literals)\n- '{{\\|}}' (you have to add to each relevant permutation), or\n- '{{|}}' (not necessary to escape the backslash)\ndepending on your use case.";
pub const END_BEFORE_PLACEHOLDER_CLOSE: &'static str =
    "You did not close the placehoder head. Please add a '!'.";
pub const END_BEFORE_BRACKET_CLOSE: &'static str = "Missing a second closing curly brace to close the permutation group. Need '}}' to close. If you want a '}' as output, escape it with backslash like '\\}'.";
pub const UNFINISHED_LITERAL: &'static str = "Missing '}}}' to close the literal text input.";
pub const EMPTY_HOTKEY: &'static str = "You cannot have an empty hotkey. You can comment this out by prefixing with '#' (This makes it part of the previous command and '#' marks comments in shellscript)";
pub const MORE_BODY_THAN_HEAD_PERMUTATIONS: &'static str = "The number of body permutations cannot exceed the number of head permutations.\nEither delete the highlighted body portion or add more options for the head.\nIf you want a comma as a text, you escape like '\\,'.";
pub const MODIFIER_ALREADY_USED: &'static str = "Modifier already used";
pub const KEY_ALREADY_USED: &'static str = "Key already used";
pub const HOTKEY_DUPLICATE: &'static str = "This hotkey is already defined previously.";
pub const HOTKEY_UNREACHABLE: &'static str = "The overall hotkey is not accessible because the part of the hotkey is already defined and will be recognised first.";
pub const INVALID_KEY_PREFIX: &'static str = "Not a valid key. The valid keys are the following:\n    ";
pub const HEAD_INVALID_KEY_PREFIX: &'static str = "Not a valid key\n";

/// The names of all keys: the modifiers, then the keycodes.
pub open spec fn all_keys() -> Seq<Seq<char>> {
    views(MODIFIERS@) + views(KEYCODES@)
}

/// All key names separated by spaces, for the message of an invalid key.
pub fn available_keys() -> (res: String)
    ensures
        res@ == join(all_keys(), " "@),
{
    let mut all: Vec<&str> = Vec::new();
    let mut i: usize = 0;
    while i < MODIFIERS.len()
        invariant
            i <= MODIFIERS@.len(),
            all@ == MODIFIERS@.take(i as int),
        decreases MODIFIERS@.len() - i,
    {
        all.push(MODIFIERS[i]);
        proof { assert(MODIFIERS@.take(i + 1) == MODIFIERS@.take(i as int).push(MODIFIERS@[i as int])); }
        i += 1;
    }
    let mut j: usize = 0;
    while j < KEYCODES.len()
        invariant
            j <= KEYCODES@.len(),
            all@ == MODIFIERS@ + KEYCODES@.take(j as int),
        decreases KEYCODES@.len() - j,
    {
        all.push(KEYCODES[j]);
        proof {
            assert(MODIFIERS@.take(MODIFIERS@.len() as int) == MODIFIERS@);
            assert(KEYCODES@.take(j + 1) == KEYCODES@.take(j as int).push(KEYCODES@[j as int]));
        }
        j += 1;
    }
    proof {
        assert(KEYCODES@.take(KEYCODES@.len() as int) == KEYCODES@);
        assert(views(all@) == all_keys());
    }
    join_strs(all.as_slice(), " ")
}

/// The message for a word of a hotkey that names no key.
pub fn invalid_key_message() -> (res: String)
    ensures
        res@ == INVALID_KEY_PREFIX@ + join(all_keys(), " "@),
{
    let mut res = String::new();
    push_str(&mut res, INVALID_KEY_PREFIX);
    let keys = available_keys();
    push_str(&mut res, keys.as_str());
    res
}

/// The short message for a word of a hotkey that names no key.
pub fn head_invalid_key_message() -> (res: String)
    ensures
        res@ == HEAD_INVALID_KEY_PREFIX@ + join(all_keys(), " "@),
{
    let mut res = String::new();
    push_str(&mut res, HEAD_INVALID_KEY_PREFIX);
    let keys = available_keys();
    push_str(&mut res, keys.as_str());
    res
}

} // verus!
