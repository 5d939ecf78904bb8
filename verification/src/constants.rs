use vstd::prelude::*;
use vstd::string::StrSliceExecFns;

verus! {

/// Whitespace characters (Unicode `White_Space`), which carry no meaning in a hotkey head.
pub const WHITESPACE: [char; 25] = [
    '\u{0009}', '\u{000a}', '\u{000b}', '\u{000c}', '\u{000d}', '\u{0020}', '\u{0085}', '\u{00a0}',
    '\u{1680}', '\u{2000}', '\u{2001}', '\u{2002}', '\u{2003}', '\u{2004}', '\u{2005}', '\u{2006}',
    '\u{2007}', '\u{2008}', '\u{2009}', '\u{200a}', '\u{2028}', '\u{2029}', '\u{202f}', '\u{205f}',
    '\u{3000}',
];

/// Characters separating the keys of a chord: the whitespace and `+`.
pub const SEPARATOR: [char; 26] = [
    '\u{0009}', '\u{000a}', '\u{000b}', '\u{000c}', '\u{000d}', '\u{0020}', '\u{0085}', '\u{00a0}',
    '\u{1680}', '\u{2000}', '\u{2001}', '\u{2002}', '\u{2003}', '\u{2004}', '\u{2005}', '\u{2006}',
    '\u{2007}', '\u{2008}', '\u{2009}', '\u{200a}', '\u{2028}', '\u{2029}', '\u{202f}', '\u{205f}',
    '\u{3000}', '+',
];

/// Modifier names, in the order of their bit in a chord's modifier flags.
pub const MODIFIERS: [&'static str; 4] = ["alt", "ctrl", "shift", "super"];

/// Key names, sorted by length and then alphabetically (xev naming).
pub const KEYCODES: [&'static str; 50] = [
    ",", ".",
    "0", "1", "2", "3", "4", "5", "6", "7", "8", "9",
    "a", "b", "c", "d", "e", "f", "g", "h", "i", "j", "k", "l", "m",
    "n", "o", "p", "q", "r", "s", "t", "u", "v", "w", "x", "y", "z",
    "Up", "Down", "Left", "Print", "Right", "space", "Insert", "Return",
    "BackSpace", "semicolon", "XF86MonBrightnessUp", "XF86MonBrightnessDown",
];

/// The length in bytes (of its UTF-8 encoding) of the longest string of `list`.
pub fn fold_max_len(list: &[&str]) -> (max_len: usize)
    requires list@.len() > 0,
    ensures
        forall|i: int| 0 <= i < list@.len() ==> list@[i].len() <= max_len,
        exists|i: int| 0 <= i < list@.len() && list@[i].len() == max_len,
{
    let mut max_len: usize = 0;
    let mut i: usize = 0;
    while i < list.len()
        invariant
            i <= list@.len(),
            forall|j: int| 0 <= j < i ==> list@[j].len() <= max_len,
            i == 0 ==> max_len == 0,
            i > 0 ==> exists|j: int| 0 <= j < i && list@[j].len() == max_len,
        decreases list@.len() - i,
    {
        let l = list[i].len();
        if max_len < l || i == 0 {
            max_len = l;
        }
        i += 1;
    }
    max_len
}

} // verus!
