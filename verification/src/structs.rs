use vstd::prelude::*;
use vstd::string::StrSliceExecFns;
use std::ops::Range;
use core::cmp::Ordering;

use crate::constants::{KEYCODES, MODIFIERS};

verus! {

/// A value together with the part of the source text it was read from:
/// the characters `start..end` of `context`.
#[derive(Clone, Copy, Debug)]
pub struct WithSpan<'filestr, T> {
    pub data: T,
    pub context: &'filestr str,
    pub start: usize,
    pub end: usize,
}

impl<'filestr, T> WithSpan<'filestr, T> {
    /// The span lies within its text.
    pub open spec fn wf(&self) -> bool {
        self.start <= self.end <= self.context@.len()
    }

    /// The characters of the text that the span covers.
    pub open spec fn text(&self) -> Seq<char> {
        self.context@.subrange(self.start as int, self.end as int)
    }

    /// The part of the text that the span covers.
    pub fn as_str(&self) -> (s: &'filestr str)
        requires
            self.wf(),
        ensures
            s@ == self.text(),
    {
        self.context.substring_char(self.start, self.end)
    }

    /// The same span carrying another value.
    pub fn map_to<U>(&self, new_value: U) -> (res: WithSpan<'filestr, U>)
        ensures
            res.data == new_value,
            res.context == self.context,
            res.start == self.start,
            res.end == self.end,
    {
        WithSpan { data: new_value, context: self.context, start: self.start, end: self.end }
    }
}

/// A cursor into a text, remembering where the previous section ended.
#[derive(Debug)]
pub struct Cursor(pub usize);

impl Cursor {
    /// Moves the cursor to `index` and returns the range it passed over.
    pub fn move_to(&mut self, index: usize) -> (range: Range<usize>)
        requires
            old(self).0 <= index,
        ensures
            range.start == old(self).0,
            range.end == index,
            final(self).0 == index,
    {
        let from = self.0;
        self.0 = index;
        from..index
    }

    /// The range from the cursor to `index`, without moving the cursor.
    pub fn span_to(&self, index: usize) -> (range: Range<usize>)
        ensures
            range.start == self.0,
            range.end == index,
    {
        self.0..index
    }

    /// The distance from the cursor to `index`.
    pub fn width(&self, index: usize) -> (w: usize)
        requires
            self.0 <= index,
        ensures
            w == index - self.0,
    {
        index - self.0
    }
}

/// Bit flags of the modifiers pressed in a chord: bit `i` stands for `MODIFIERS[i]`.
pub type ChordModifiers = u8;

/// One chord of a hotkey: at most one key and a set of modifiers.
/// `key == KEYCODES.len()` means that no key is pressed.
/// `sources[0]` is the text of the key; the texts of the modifiers follow in
/// the slots after it, in the order they were written (see `Chord::add`).
#[derive(Clone, Copy, Debug)]
pub struct Chord<'filestr> {
    pub key: usize,
    pub modifiers: ChordModifiers,
    pub sources: [&'filestr str; 5],
    pub context: &'filestr str,
}

impl<'filestr> Chord<'filestr> {
    /// A chord with no key and no modifier.
    pub fn new(context: &'filestr str) -> (chord: Self)
        ensures
            chord.key == KEYCODES.len(),
            chord.modifiers == 0,
            chord.context == context,
            forall|i: int| 0 <= i < 5 ==> chord.sources@[i]@ == Seq::<char>::empty(),
    {
        let empty = context.substring_char(0, 0);
        Chord { key: KEYCODES.len(), modifiers: 0, sources: [empty, empty, empty, empty, empty], context }
    }
}

/// Chords are equal when their keys and their modifiers are (the text they
/// were read from does not count).
impl<'filestr> PartialEq for Chord<'filestr> {
    fn eq(&self, other: &Self) -> (r: bool) {
        self.key == other.key && self.modifiers == other.modifiers
    }
}

impl<'filestr> vstd::std_specs::cmp::PartialEqSpecImpl for Chord<'filestr> {
    open spec fn obeys_eq_spec() -> bool {
        true
    }

    open spec fn eq_spec(&self, other: &Self) -> bool {
        self.key == other.key && self.modifiers == other.modifiers
    }
}

/// Chords are ordered by key, then by modifiers.
impl<'filestr> PartialOrd for Chord<'filestr> {
    fn partial_cmp(&self, other: &Self) -> (r: Option<Ordering>) {
        if self.key < other.key {
            Some(Ordering::Less)
        } else if self.key > other.key {
            Some(Ordering::Greater)
        } else if self.modifiers < other.modifiers {
            Some(Ordering::Less)
        } else if self.modifiers > other.modifiers {
            Some(Ordering::Greater)
        } else {
            Some(Ordering::Equal)
        }
    }
}

impl<'filestr> vstd::std_specs::cmp::PartialOrdSpecImpl for Chord<'filestr> {
    open spec fn obeys_partial_cmp_spec() -> bool {
        true
    }

    open spec fn partial_cmp_spec(&self, other: &Self) -> Option<Ordering> {
        if self.key < other.key {
            Some(Ordering::Less)
        } else if self.key > other.key {
            Some(Ordering::Greater)
        } else if self.modifiers < other.modifiers {
            Some(Ordering::Less)
        } else if self.modifiers > other.modifiers {
            Some(Ordering::Greater)
        } else {
            Some(Ordering::Equal)
        }
    }
}

/// The chords of a hotkey, pressed one after another.
pub type Hotkey<'owner, 'filestr> = &'owner [Chord<'filestr>];

/// A hotkey and the command it runs (the pieces of text of the command).
/// A placeholder reserves a hotkey and runs nothing.
#[derive(Clone, Copy, Debug)]
pub struct Shortcut<'owner, 'filestr> {
    pub is_placeholder: bool,
    pub hotkey: Hotkey<'owner, 'filestr>,
    pub command: &'owner [WithSpan<'filestr, ()>],
}

} // verus!
