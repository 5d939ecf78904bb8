//! The second phase: expands the lexemes of each entry into its shortcuts.
//!
//! An entry whose head holds permutation groups `{{a, b}}` stands for as
//! many shortcuts as the groups have options: shortcut `i` takes option `i`
//! of every group of the head and of the body.
use vstd::prelude::*;

use crate::constants::{KEYCODES, MODIFIERS};
use crate::errors;
use crate::lexer::{lex_error_reported, lex_spec, lexed_wf, span_ok, BodyLexeme, HeadLexeme, LexemeLists, PostLexEntry};
use crate::reporter::MarkupError;
use crate::structs::{Chord, Shortcut, WithSpan};

verus! {

/****************************************************************************
 * Permutation groups
 ****************************************************************************/

/// The role of a lexeme for permutation groups.
#[derive(Clone, Copy, Debug, PartialEq, Eq, Structural)]
pub enum Group {
    Begin,
    Delim,
    Close,
    Other,
}

pub open spec fn head_group(l: HeadLexeme) -> Group {
    match l {
        HeadLexeme::ChoiceBegin => Group::Begin,
        HeadLexeme::ChoiceDelim => Group::Delim,
        HeadLexeme::ChoiceClose => Group::Close,
        _ => Group::Other,
    }
}

pub open spec fn body_group(l: BodyLexeme) -> Group {
    match l {
        BodyLexeme::ChoiceBegin => Group::Begin,
        BodyLexeme::ChoiceDelim => Group::Delim,
        BodyLexeme::ChoiceClose => Group::Close,
        _ => Group::Other,
    }
}

/// Whether a group is open and which option of it is being read,
/// after the lexemes `gs[0..j]`.
pub open spec fn group_at(gs: Seq<Group>, j: int) -> (bool, nat)
    decreases j,
{
    if j <= 0 {
        (false, 0)
    } else {
        let (open, option) = group_at(gs, j - 1);
        match gs[j - 1] {
            Group::Begin => (true, 0),
            Group::Delim => if open { (true, option + 1) } else { (open, option) },
            Group::Close => (false, 0),
            Group::Other => (open, option),
        }
    }
}

/// Lexeme `j` belongs to permutation `i`: it is outside any group,
/// or in option `i` of its group.
pub open spec fn visible(gs: Seq<Group>, j: int, i: nat) -> bool {
    let (open, option) = group_at(gs, j);
    !open || option == i
}

/// The number of options of the largest group among `gs[0..j]` (at least one).
pub open spec fn options(gs: Seq<Group>, j: int) -> nat
    decreases j,
{
    if j <= 0 {
        1
    } else {
        let prev = options(gs, j - 1);
        let (open, option) = group_at(gs, j - 1);
        if open && gs[j - 1] is Delim && prev < option + 2 {
            option + 2
        } else {
            prev
        }
    }
}

pub open spec fn head_groups<'a>(ls: Seq<WithSpan<'a, HeadLexeme>>) -> Seq<Group> {
    ls.map_values(|l: WithSpan<'a, HeadLexeme>| head_group(l.data))
}

pub open spec fn body_groups<'a>(ls: Seq<WithSpan<'a, BodyLexeme>>) -> Seq<Group> {
    ls.map_values(|l: WithSpan<'a, BodyLexeme>| body_group(l.data))
}

/****************************************************************************
 * Hotkeys and commands
 ****************************************************************************/

/// A chord as the order and the equality of hotkeys see it: its key and its modifiers.
pub struct ChordKey {
    pub key: usize,
    pub modifiers: u8,
}

pub open spec fn empty_chord() -> ChordKey {
    ChordKey { key: KEYCODES.len(), modifiers: 0 }
}

pub open spec fn chord_key(c: Chord) -> ChordKey {
    ChordKey { key: c.key, modifiers: c.modifiers }
}

pub open spec fn chord_keys(cs: Seq<Chord>) -> Seq<ChordKey> {
    cs.map_values(|c: Chord| chord_key(c))
}

/// The chords of permutation `i` read from the lexemes `ls[0..j]`,
/// or the index of the lexeme that repeats a key or a modifier.
pub open spec fn build_hotkey<'a>(ls: Seq<WithSpan<'a, HeadLexeme>>, i: nat, j: int) -> Result<Seq<ChordKey>, int>
    decreases j,
{
    if j <= 0 {
        Ok(seq![empty_chord()])
    } else {
        match build_hotkey(ls, i, j - 1) {
            Err(x) => Err(x),
            Ok(cs) => if !visible(head_groups(ls), j - 1, i) {
                Ok(cs)
            } else {
                let last = cs.last();
                match ls[j - 1].data {
                    HeadLexeme::Key(k) => if last.key == KEYCODES.len() {
                        Ok(cs.update(cs.len() - 1, ChordKey { key: k, modifiers: last.modifiers }))
                    } else {
                        Err(j - 1)
                    },
                    HeadLexeme::Mod(m) => if last.modifiers & (1u8 << m as u8) == 0 {
                        Ok(cs.update(cs.len() - 1, ChordKey { key: last.key, modifiers: last.modifiers | (1u8 << m as u8) }))
                    } else {
                        Err(j - 1)
                    },
                    HeadLexeme::ChordDelim => Ok(cs.push(empty_chord())),
                    _ => Ok(cs),
                }
            },
        }
    }
}

/// The texts of the chords of permutation `i` read from the lexemes `ls[0..j]`
/// (see `Chord::add`), with the number of keys and modifiers added to the last.
pub open spec fn build_sources<'a>(ls: Seq<WithSpan<'a, HeadLexeme>>, i: nat, j: int) -> (Seq<Seq<Seq<char>>>, nat)
    decreases j,
{
    if j <= 0 {
        (seq![empty_texts()], 0)
    } else {
        let (ts, added) = build_sources(ls, i, j - 1);
        if !visible(head_groups(ls), j - 1, i) {
            (ts, added)
        } else {
            match ls[j - 1].data {
                HeadLexeme::Key(_) => (ts.update(ts.len() - 1, ts.last().update(0, ls[j - 1].text())), added + 1),
                HeadLexeme::Mod(_) => (ts.update(ts.len() - 1, place_modifier(ts.last(), added as int, ls[j - 1].text())), added + 1),
                HeadLexeme::ChordDelim => (ts.push(empty_texts()), 0),
                _ => (ts, added),
            }
        }
    }
}

pub open spec fn chords_texts(cs: Seq<Chord>) -> Seq<Seq<Seq<char>>> {
    cs.map_values(|c: Chord| chord_texts(c))
}

/// The sections of text of permutation `i` among the lexemes `ls[0..j]`.
pub open spec fn build_command<'a>(ls: Seq<WithSpan<'a, BodyLexeme>>, i: nat, j: int) -> Seq<WithSpan<'a, ()>>
    decreases j,
{
    if j <= 0 {
        Seq::empty()
    } else {
        let prev = build_command(ls, i, j - 1);
        let l = ls[j - 1];
        if visible(body_groups(ls), j - 1, i) && l.data is Section {
            prev.push(WithSpan { data: (), context: l.context, start: l.start, end: l.end })
        } else {
            prev
        }
    }
}

/// A shortcut as the parser reads it: whether it is a placeholder,
/// its chords, the texts its chords were read from (see `Chord::add`), the
/// sections of its command, and the characters `span_start..span_end` of the
/// text that its head was read from.
#[verifier::ext_equal]
pub struct ShortcutModel<'a> {
    pub is_placeholder: bool,
    pub hotkey: Seq<ChordKey>,
    pub texts: Seq<Seq<Seq<char>>>,
    pub command: Seq<WithSpan<'a, ()>>,
    pub span_start: int,
    pub span_end: int,
}

/// An error: the characters it points at and its message.
pub struct ParseError {
    pub start: int,
    pub end: int,
    pub message: Seq<char>,
}

pub open spec fn entry_heads<'a>(heads: Seq<WithSpan<'a, HeadLexeme>>, e: PostLexEntry) -> Seq<WithSpan<'a, HeadLexeme>> {
    heads.subrange(e.head_start as int, e.head_end as int)
}

pub open spec fn entry_bodys<'a>(bodys: Seq<WithSpan<'a, BodyLexeme>>, e: PostLexEntry) -> Seq<WithSpan<'a, BodyLexeme>> {
    bodys.subrange(e.body_start as int, e.body_end as int)
}

/// An error from the start of the first of `ls` to the end of its last.
pub open spec fn error_over<'a, T>(ls: Seq<WithSpan<'a, T>>, message: Seq<char>) -> ParseError {
    if ls.len() == 0 {
        ParseError { start: 0, end: 0, message }
    } else {
        ParseError { start: ls[0].start as int, end: ls.last().end as int, message }
    }
}

pub open spec fn has_empty_chord(cs: Seq<ChordKey>) -> bool {
    exists|k: int| 0 <= k < cs.len() && cs[k] == empty_chord()
}

/// The shortcut of permutation `i` of an entry.
pub open spec fn permutation<'a>(
    hs: Seq<WithSpan<'a, HeadLexeme>>,
    bs: Seq<WithSpan<'a, BodyLexeme>>,
    is_placeholder: bool,
    i: nat,
) -> Result<ShortcutModel<'a>, ParseError> {
    match build_hotkey(hs, i, hs.len() as int) {
        Err(x) => Err(ParseError {
            start: hs[x].start as int,
            end: hs[x].end as int,
            message: if hs[x].data is Key { errors::KEY_ALREADY_USED@ } else { errors::MODIFIER_ALREADY_USED@ },
        }),
        Ok(cs) => if has_empty_chord(cs) {
            Err(error_over(hs, errors::EMPTY_HOTKEY@))
        } else {
            Ok(ShortcutModel {
                is_placeholder,
                hotkey: cs,
                texts: build_sources(hs, i, hs.len() as int).0,
                command: build_command(bs, i, bs.len() as int),
                span_start: error_over(hs, Seq::empty()).start,
                span_end: error_over(hs, Seq::empty()).end,
            })
        },
    }
}

/// The shortcuts of permutations `0..count` of an entry.
pub open spec fn permutations<'a>(
    hs: Seq<WithSpan<'a, HeadLexeme>>,
    bs: Seq<WithSpan<'a, BodyLexeme>>,
    is_placeholder: bool,
    count: nat,
) -> Result<Seq<ShortcutModel<'a>>, ParseError>
    decreases count,
{
    if count == 0 {
        Ok(Seq::empty())
    } else {
        match permutations(hs, bs, is_placeholder, (count - 1) as nat) {
            Err(e) => Err(e),
            Ok(done) => match permutation(hs, bs, is_placeholder, (count - 1) as nat) {
                Err(e) => Err(e),
                Ok(s) => Ok(done.push(s)),
            },
        }
    }
}

/// The shortcuts of one entry.
pub open spec fn entry_shortcuts<'a>(
    heads: Seq<WithSpan<'a, HeadLexeme>>,
    bodys: Seq<WithSpan<'a, BodyLexeme>>,
    e: PostLexEntry,
) -> Result<Seq<ShortcutModel<'a>>, ParseError> {
    let hs = entry_heads(heads, e);
    let bs = entry_bodys(bodys, e);
    let count = options(head_groups(hs), hs.len() as int);
    if options(body_groups(bs), bs.len() as int) > count {
        Err(error_over(bs, errors::MORE_BODY_THAN_HEAD_PERMUTATIONS@))
    } else {
        permutations(hs, bs, e.is_placeholder, count)
    }
}

/// The shortcuts of the entries `entries[0..n]`, in order.
pub open spec fn parse_spec<'a>(
    entries: Seq<PostLexEntry>,
    heads: Seq<WithSpan<'a, HeadLexeme>>,
    bodys: Seq<WithSpan<'a, BodyLexeme>>,
    n: int,
) -> Result<Seq<ShortcutModel<'a>>, ParseError>
    decreases n,
{
    if n <= 0 {
        Ok(Seq::empty())
    } else {
        match parse_spec(entries, heads, bodys, n - 1) {
            Err(e) => Err(e),
            Ok(done) => match entry_shortcuts(heads, bodys, entries[n - 1]) {
                Err(e) => Err(e),
                Ok(more) => Ok(done + more),
            },
        }
    }
}

/****************************************************************************
 * Chords
 ****************************************************************************/

/// The texts of a chord's slots: the key's, then the modifiers'.
pub open spec fn chord_texts(c: Chord) -> Seq<Seq<char>> {
    c.sources@.map_values(|s: &str| s@)
}

/// Five empty slots.
pub open spec fn empty_texts() -> Seq<Seq<char>> {
    seq![Seq::<char>::empty(), Seq::<char>::empty(), Seq::<char>::empty(), Seq::<char>::empty(), Seq::<char>::empty()]
}

/// The first slot among `x..5` whose text is empty, or 5 where there is none.
pub open spec fn first_empty_slot(texts: Seq<Seq<char>>, x: int) -> int
    decreases 5 - x,
{
    if x >= 5 {
        5
    } else if texts[x].len() == 0 {
        x
    } else {
        first_empty_slot(texts, x + 1)
    }
}

/// The slot that the text of a modifier goes to, after `added` keys and
/// modifiers were added to the chord: the slot after them, or, when that is
/// past the last slot, the first empty one (5 where none is).
pub open spec fn modifier_slot(texts: Seq<Seq<char>>, added: int) -> int {
    if added + 1 < 5 {
        added + 1
    } else {
        first_empty_slot(texts, 1)
    }
}

/// The slots after the text of a modifier was placed.
pub open spec fn place_modifier(texts: Seq<Seq<char>>, added: int, text: Seq<char>) -> Seq<Seq<char>> {
    let slot = modifier_slot(texts, added);
    if slot < 5 {
        texts.update(slot, text)
    } else {
        texts
    }
}

/// The message for a word of a head that names no key or modifier.
pub open spec fn invalid_key_spec() -> Seq<char> {
    errors::INVALID_KEY_PREFIX@ + crate::text::join(errors::all_keys(), " "@)
}

impl<'filestr> Chord<'filestr> {
    /// Adds the key or modifier that `lexeme` names to the chord, of which
    /// `keys_added` keys and modifiers were added before; fails when the chord
    /// already has a key, or already has that modifier, or when the lexeme
    /// names no key or modifier.
    /// The text of a key goes to `sources[0]`, that of a modifier to the slot
    /// `keys_added + 1` (or, past the last slot, to the first empty one).
    pub fn add(&mut self, lexeme: &WithSpan<'filestr, HeadLexeme>, keys_added: usize) -> (r: Result<(), MarkupError>)
        requires
            lexeme.wf(),
        ensures
            final(self).context == old(self).context,
            match lexeme.data {
                HeadLexeme::Key(k) => if k >= KEYCODES.len() {
                    &&& r matches Err(err) && err.source@ == lexeme.context@ && err.range == (lexeme.start, lexeme.end)
                        && err.message@ == invalid_key_spec()
                    &&& *final(self) == *old(self)
                } else if old(self).key == KEYCODES.len() {
                    &&& r is Ok
                    &&& final(self).key == k
                    &&& final(self).modifiers == old(self).modifiers
                    &&& chord_texts(*final(self)) == chord_texts(*old(self)).update(0, lexeme.text())
                } else {
                    &&& r matches Err(err) && err.source@ == lexeme.context@ && err.range == (lexeme.start, lexeme.end)
                        && err.message@ == errors::KEY_ALREADY_USED@
                    &&& *final(self) == *old(self)
                },
                HeadLexeme::Mod(m) => if m >= MODIFIERS.len() {
                    &&& r matches Err(err) && err.source@ == lexeme.context@ && err.range == (lexeme.start, lexeme.end)
                        && err.message@ == invalid_key_spec()
                    &&& *final(self) == *old(self)
                } else if old(self).modifiers & (1u8 << m as u8) == 0 {
                    &&& r is Ok
                    &&& final(self).key == old(self).key
                    &&& final(self).modifiers == old(self).modifiers | (1u8 << m as u8)
                    &&& chord_texts(*final(self)) == place_modifier(chord_texts(*old(self)), keys_added as int, lexeme.text())
                } else {
                    &&& r matches Err(err) && err.source@ == lexeme.context@ && err.range == (lexeme.start, lexeme.end)
                        && err.message@ == errors::MODIFIER_ALREADY_USED@
                    &&& *final(self) == *old(self)
                },
                _ => {
                    &&& r matches Err(err) && err.source@ == lexeme.context@ && err.range == (lexeme.start, lexeme.end)
                        && err.message@ == invalid_key_spec()
                    &&& *final(self) == *old(self)
                },
            },
    {
        let text = lexeme.as_str();
        let ghost before = chord_texts(*self);
        match lexeme.data {
            HeadLexeme::Key(k) => {
                if k >= KEYCODES.len() {
                    Err(MarkupError::from_str(lexeme.context, &lexeme.map_to(()), errors::invalid_key_message()))
                } else if self.key == KEYCODES.len() {
                    self.key = k;
                    self.sources[0] = text;
                    proof { assert(chord_texts(*self) =~= before.update(0, lexeme.text())); }
                    Ok(())
                } else {
                    Err(MarkupError::from_str(lexeme.context, &lexeme.map_to(()), errors::KEY_ALREADY_USED.to_owned()))
                }
            },
            HeadLexeme::Mod(m) => {
                if m >= MODIFIERS.len() {
                    return Err(MarkupError::from_str(lexeme.context, &lexeme.map_to(()), errors::invalid_key_message()));
                }
                let as_flag: u8 = 1u8 << m as u8;
                if self.modifiers & as_flag == 0 {
                    self.modifiers = self.modifiers | as_flag;
                    let slot = self.modifier_slot(keys_added);
                    if slot < 5 {
                        self.sources[slot] = text;
                        proof { assert(chord_texts(*self) =~= before.update(slot as int, lexeme.text())); }
                    } else {
                        proof { assert(chord_texts(*self) =~= before); }
                    }
                    Ok(())
                } else {
                    Err(MarkupError::from_str(lexeme.context, &lexeme.map_to(()), errors::MODIFIER_ALREADY_USED.to_owned()))
                }
            },
            _ => Err(MarkupError::from_str(lexeme.context, &lexeme.map_to(()), errors::invalid_key_message())),
        }
    }

    /// The slot for the text of a modifier added after `keys_added` keys and modifiers.
    fn modifier_slot(&self, keys_added: usize) -> (slot: usize)
        ensures
            slot == modifier_slot(chord_texts(*self), keys_added as int),
            slot <= 5,
    {
        if keys_added < 4 {
            return keys_added + 1;
        }
        let ghost texts = chord_texts(*self);
        let mut x: usize = 1;
        while x < 5
            invariant
                1 <= x <= 5,
                keys_added >= 4,
                texts == chord_texts(*self),
                first_empty_slot(texts, 1) == first_empty_slot(texts, x as int),
            decreases 5 - x,
        {
            assert(texts[x as int] == self.sources@[x as int]@);
            let len = self.sources[x].unicode_len();
            if len == 0 {
                assert(texts[x as int].len() == 0);
                assert(first_empty_slot(texts, x as int) == x);
                return x;
            }
            assert(first_empty_slot(texts, x as int) == first_empty_slot(texts, x + 1));
            x += 1;
        }
        x
    }
}

/****************************************************************************
 * Groups in exec
 ****************************************************************************/

proof fn lemma_group_at_bound(gs: Seq<Group>, j: int)
    requires
        0 <= j <= gs.len(),
    ensures
        group_at(gs, j).0 ==> group_at(gs, j).1 + 1 <= j,
        !group_at(gs, j).0 ==> group_at(gs, j).1 == 0,
        options(gs, j) <= j + 1,
    decreases j,
{
    if j > 0 {
        lemma_group_at_bound(gs, j - 1);
    }
}

/// The groups of the lexemes `ls[start..end]`.
fn head_groups_of(ls: &Vec<WithSpan<HeadLexeme>>, start: usize, end: usize) -> (gs: Vec<Group>)
    requires
        start <= end <= ls@.len(),
    ensures
        gs@ == head_groups(ls@.subrange(start as int, end as int)),
{
    let ghost sub = ls@.subrange(start as int, end as int);
    let mut gs: Vec<Group> = Vec::new();
    let mut j = start;
    while j < end
        invariant
            start <= j <= end <= ls@.len(),
            sub == ls@.subrange(start as int, end as int),
            gs@ == head_groups(sub).take(j - start),
        decreases end - j,
    {
        let g = match ls[j].data {
            HeadLexeme::ChoiceBegin => Group::Begin,
            HeadLexeme::ChoiceDelim => Group::Delim,
            HeadLexeme::ChoiceClose => Group::Close,
            _ => Group::Other,
        };
        gs.push(g);
        proof {
            assert(head_groups(sub).take(j + 1 - start) == head_groups(sub).take(j - start).push(head_groups(sub)[j - start]));
        }
        j += 1;
    }
    proof { assert(head_groups(sub).take(end - start) == head_groups(sub)); }
    gs
}

/// The groups of the lexemes `ls[start..end]`.
fn body_groups_of(ls: &Vec<WithSpan<BodyLexeme>>, start: usize, end: usize) -> (gs: Vec<Group>)
    requires
        start <= end <= ls@.len(),
    ensures
        gs@ == body_groups(ls@.subrange(start as int, end as int)),
{
    let ghost sub = ls@.subrange(start as int, end as int);
    let mut gs: Vec<Group> = Vec::new();
    let mut j = start;
    while j < end
        invariant
            start <= j <= end <= ls@.len(),
            sub == ls@.subrange(start as int, end as int),
            gs@ == body_groups(sub).take(j - start),
        decreases end - j,
    {
        let g = match ls[j].data {
            BodyLexeme::ChoiceBegin => Group::Begin,
            BodyLexeme::ChoiceDelim => Group::Delim,
            BodyLexeme::ChoiceClose => Group::Close,
            _ => Group::Other,
        };
        gs.push(g);
        proof {
            assert(body_groups(sub).take(j + 1 - start) == body_groups(sub).take(j - start).push(body_groups(sub)[j - start]));
        }
        j += 1;
    }
    proof { assert(body_groups(sub).take(end - start) == body_groups(sub)); }
    gs
}

/// The group state after reading `g`.
fn group_next(open: bool, option: usize, g: Group) -> (next: (bool, usize))
    requires
        option < usize::MAX,
    ensures
        next.0 == (match g {
            Group::Begin => true,
            Group::Delim => open,
            Group::Close => false,
            Group::Other => open,
        }),
        next.1 == (match g {
            Group::Begin => 0,
            Group::Delim => if open { option + 1 } else { option as int },
            Group::Close => 0,
            Group::Other => option as int,
        }),
{
    match g {
        Group::Begin => (true, 0),
        Group::Delim => if open { (true, option + 1) } else { (open, option) },
        Group::Close => (false, 0),
        Group::Other => (open, option),
    }
}

/// The number of options of the largest group of `gs`.
fn count_options(gs: &Vec<Group>) -> (count: usize)
    ensures
        count == options(gs@, gs@.len() as int),
        count >= 1,
{
    let mut count: usize = 1;
    let mut open = false;
    let mut option: usize = 0;
    let mut j: usize = 0;
    while j < gs.len()
        invariant
            j <= gs@.len(),
            (open, option as nat) == group_at(gs@, j as int),
            count == options(gs@, j as int),
            count >= 1,
        decreases gs@.len() - j,
    {
        proof { lemma_group_at_bound(gs@, j as int); }
        let g = gs[j];
        if open && g == Group::Delim && count < option + 2 {
            count = option + 2;
        }
        let next = group_next(open, option, g);
        open = next.0;
        option = next.1;
        j += 1;
    }
    count
}

/****************************************************************************
 * Head and body parse
 ****************************************************************************/

proof fn lemma_build_err_persists<'a>(ls: Seq<WithSpan<'a, HeadLexeme>>, i: nat, j: int, k: int)
    requires
        0 <= j <= k,
        build_hotkey(ls, i, j) is Err,
    ensures
        build_hotkey(ls, i, k) == build_hotkey(ls, i, j),
    decreases k - j,
{
    if k > j {
        lemma_build_err_persists(ls, i, j, k - 1);
    }
}

/// The spans `ls[start..end]` are spans of `ctx`, and key and modifier lexemes name existing ones.
pub open spec fn heads_ok<'a>(ctx: &'a str, ls: Seq<WithSpan<'a, HeadLexeme>>) -> bool {
    forall|j: int| 0 <= j < ls.len() ==> span_ok(ctx, #[trigger] ls[j]) && crate::lexer::head_ok(ls[j].data)
}

/// Pushes the chords of permutation `i` of the head lexemes `heads[start..end]`.
fn parse_head_lex_into_chords<'filestr>(
    chords: &mut Vec<Chord<'filestr>>,
    context: &'filestr str,
    heads: &Vec<WithSpan<'filestr, HeadLexeme>>,
    start: usize,
    end: usize,
    gs: &Vec<Group>,
    i: usize,
) -> (r: Result<(), MarkupError>)
    requires
        start <= end <= heads@.len(),
        gs@ == head_groups(heads@.subrange(start as int, end as int)),
        heads_ok(context, heads@.subrange(start as int, end as int)),
    ensures
        ({
            let hs = heads@.subrange(start as int, end as int);
            match build_hotkey(hs, i as nat, hs.len() as int) {
                Ok(cs) => {
                    &&& r is Ok
                    &&& final(chords)@.len() >= old(chords)@.len()
                    &&& final(chords)@.take(old(chords)@.len() as int) == old(chords)@
                    &&& chord_keys(final(chords)@.skip(old(chords)@.len() as int)) == cs
                    &&& chords_texts(final(chords)@.skip(old(chords)@.len() as int)) == build_sources(hs, i as nat, hs.len() as int).0
                    &&& forall|x: int| old(chords)@.len() <= x < final(chords)@.len() ==> (#[trigger] final(chords)@[x]).context == context
                },
                Err(x) => r matches Err(err) && err.source@ == context@ && err.range == (hs[x].start, hs[x].end)
                    && err.message@ == (if hs[x].data is Key { errors::KEY_ALREADY_USED@ } else { errors::MODIFIER_ALREADY_USED@ }),
            }
        }),
{
    let ghost hs = heads@.subrange(start as int, end as int);
    let ghost base = old(chords)@;
    let mut cur = Chord::new(context);
    let mut open = false;
    let mut option: usize = 0;
    let mut added: usize = 0;
    let mut j = start;
    proof {
        assert(chords@.skip(base.len() as int) =~= Seq::<Chord>::empty());
        assert(chord_keys(Seq::<Chord>::empty()).push(chord_key(cur)) =~= seq![empty_chord()]);
        assert(chord_texts(cur) =~= empty_texts());
        assert(chords_texts(Seq::<Chord>::empty()).push(chord_texts(cur)) =~= seq![empty_texts()]);
    }
    while j < end
        invariant
            start <= j <= end <= heads@.len(),
            hs == heads@.subrange(start as int, end as int),
            gs@ == head_groups(hs),
            heads_ok(context, hs),
            (open, option as nat) == group_at(gs@, j - start),
            chords@.len() >= base.len(),
            chords@.take(base.len() as int) == base,
            build_hotkey(hs, i as nat, j - start) == Ok::<Seq<ChordKey>, int>(chord_keys(chords@.skip(base.len() as int)).push(chord_key(cur))),
            build_sources(hs, i as nat, j - start) == (chords_texts(chords@.skip(base.len() as int)).push(chord_texts(cur)), added as nat),
            added <= j - start,
            cur.context == context,
            forall|x: int| base.len() <= x < chords@.len() ==> (#[trigger] chords@[x]).context == context,
        decreases end - j,
    {
        proof { lemma_group_at_bound(gs@, j - start); }
        let ghost before = chords@;
        let ghost old_cur = cur;
        let ghost prefix = chord_keys(chords@.skip(base.len() as int));
        let ghost tprefix = chords_texts(chords@.skip(base.len() as int));
        assert(span_ok(context, hs[j - start]));
        assert(hs[j - start] == heads@[j as int]);
        assert(visible(head_groups(hs), j - start, i as nat) == (!open || option == i));
        if !open || option == i {
            match heads[j].data {
                HeadLexeme::Key(_) | HeadLexeme::Mod(_) => {
                    match cur.add(&heads[j], added) {
                        Ok(()) => {
                            proof {
                                assert(prefix.push(chord_key(old_cur)).update(prefix.len() as int, chord_key(cur))
                                    =~= prefix.push(chord_key(cur)));
                                assert(tprefix.push(chord_texts(old_cur)).update(tprefix.len() as int, chord_texts(cur))
                                    =~= tprefix.push(chord_texts(cur)));
                            }
                            added = added + 1;
                        },
                        Err(err) => {
                            proof { lemma_build_err_persists(hs, i as nat, j + 1 - start, hs.len() as int); }
                            return Err(err);
                        },
                    }
                },
                HeadLexeme::ChordDelim => {
                    chords.push(cur);
                    cur = Chord::new(context);
                    added = 0;
                    proof {
                        assert(chords@.take(base.len() as int) =~= base);
                        assert(chords@.skip(base.len() as int) =~= before.skip(base.len() as int).push(old_cur));
                        assert(chord_keys(chords@.skip(base.len() as int)) =~= prefix.push(chord_key(old_cur)));
                        assert(chords_texts(chords@.skip(base.len() as int)) =~= tprefix.push(chord_texts(old_cur)));
                        assert(chord_texts(cur) =~= empty_texts());
                    }
                },
                _ => {},
            }
        }
        let next = group_next(open, option, gs[j - start]);
        open = next.0;
        option = next.1;
        j += 1;
    }
    let ghost before = chords@;
    chords.push(cur);
    proof {
        assert(chords@.take(base.len() as int) =~= base);
        assert(chords@.skip(base.len() as int) =~= before.skip(base.len() as int).push(cur));
        assert(chord_keys(chords@.skip(base.len() as int)) =~= chord_keys(before.skip(base.len() as int)).push(chord_key(cur)));
        assert(chords_texts(chords@.skip(base.len() as int)) =~= chords_texts(before.skip(base.len() as int)).push(chord_texts(cur)));
        assert(hs.len() == end - start);
    }
    Ok(())
}

/// Pushes the sections of permutation `i` of the body lexemes `bodys[start..end]`.
fn parse_body_lex_into_scripts<'filestr>(
    scripts: &mut Vec<WithSpan<'filestr, ()>>,
    bodys: &Vec<WithSpan<'filestr, BodyLexeme>>,
    start: usize,
    end: usize,
    gs: &Vec<Group>,
    i: usize,
)
    requires
        start <= end <= bodys@.len(),
        gs@ == body_groups(bodys@.subrange(start as int, end as int)),
    ensures
        ({
            let bs = bodys@.subrange(start as int, end as int);
            &&& final(scripts)@.len() >= old(scripts)@.len()
            &&& final(scripts)@.take(old(scripts)@.len() as int) == old(scripts)@
            &&& final(scripts)@.skip(old(scripts)@.len() as int) == build_command(bs, i as nat, bs.len() as int)
        }),
{
    let ghost bs = bodys@.subrange(start as int, end as int);
    let ghost base = old(scripts)@;
    let mut open = false;
    let mut option: usize = 0;
    let mut j = start;
    proof { assert(scripts@.skip(base.len() as int) =~= Seq::<WithSpan<()>>::empty()); }
    while j < end
        invariant
            start <= j <= end <= bodys@.len(),
            bs == bodys@.subrange(start as int, end as int),
            gs@ == body_groups(bs),
            (open, option as nat) == group_at(gs@, j - start),
            scripts@.len() >= base.len(),
            scripts@.take(base.len() as int) == base,
            scripts@.skip(base.len() as int) == build_command(bs, i as nat, j - start),
        decreases end - j,
    {
        proof { lemma_group_at_bound(gs@, j - start); }
        let ghost before = scripts@;
        assert(bs[j - start] == bodys@[j as int]);
        assert(visible(body_groups(bs), j - start, i as nat) == (!open || option == i));
        if (!open || option == i) && bodys[j].data == BodyLexeme::Section {
            scripts.push(bodys[j].map_to(()));
            proof {
                assert(scripts@.take(base.len() as int) =~= base);
                assert(scripts@.skip(base.len() as int) =~= before.skip(base.len() as int).push(scripts@.last()));
            }
        }
        let next = group_next(open, option, gs[j - start]);
        open = next.0;
        option = next.1;
        j += 1;
    }
    proof { assert(bs.len() == end - start); }
}

/****************************************************************************
 * Shortcut owner
 ****************************************************************************/

/// Where a shortcut's parts are: its chords are `chords[head_start..head_end]`,
/// its command `scripts[body_start..body_end]`, and its head was read from
/// the characters `span_start..span_end` of the text.
#[derive(Clone, Copy, Debug)]
pub struct ShortcutPointer {
    pub is_placeholder: bool,
    pub head_start: usize,
    pub head_end: usize,
    pub body_start: usize,
    pub body_end: usize,
    pub span_start: usize,
    pub span_end: usize,
}

/// The shortcuts of a file: they share the storage of their chords and commands.
#[derive(Debug)]
pub struct ShortcutOwner<'filestr> {
    pub source: &'filestr str,
    pub chords: Vec<Chord<'filestr>>,
    pub scripts: Vec<WithSpan<'filestr, ()>>,
    pub shortcuts: Vec<ShortcutPointer>,
}

impl<'filestr> ShortcutOwner<'filestr> {
    pub open spec fn pointer_ok(&self, p: ShortcutPointer) -> bool {
        p.head_start <= p.head_end <= self.chords@.len() && p.body_start <= p.body_end <= self.scripts@.len()
    }

    /// Every section of a command is a span of the source, and every chord
    /// was read from the source.
    pub open spec fn spans_ok(&self) -> bool {
        &&& forall|k: int| 0 <= k < self.scripts@.len() ==> span_ok(self.source, #[trigger] self.scripts@[k])
        &&& forall|k: int| 0 <= k < self.chords@.len() ==> (#[trigger] self.chords@[k]).context == self.source
    }

    /// Every shortcut points into the storage.
    pub open spec fn wf(&self) -> bool {
        forall|k: int| 0 <= k < self.shortcuts@.len() ==> self.pointer_ok(#[trigger] self.shortcuts@[k])
    }

    pub open spec fn pointer_model(&self, p: ShortcutPointer) -> ShortcutModel<'filestr> {
        ShortcutModel {
            is_placeholder: p.is_placeholder,
            hotkey: chord_keys(self.chords@.subrange(p.head_start as int, p.head_end as int)),
            texts: chords_texts(self.chords@.subrange(p.head_start as int, p.head_end as int)),
            command: self.scripts@.subrange(p.body_start as int, p.body_end as int),
            span_start: p.span_start as int,
            span_end: p.span_end as int,
        }
    }

    /// The shortcuts, in order.
    pub open spec fn models(&self) -> Seq<ShortcutModel<'filestr>> {
        self.shortcuts@.map_values(|p: ShortcutPointer| self.pointer_model(p))
    }

    /// The chords and the command sections of the shortcuts lie one after
    /// another in the storage, in the order of the shortcuts, and fill it.
    pub open spec fn tiled(&self) -> bool {
        let ps = self.shortcuts@;
        &&& forall|k: int| 0 < k < ps.len() ==> (#[trigger] ps[k]).head_start == ps[k - 1].head_end && ps[k].body_start == ps[k - 1].body_end
        &&& ps.len() > 0 ==> ps[0].head_start == 0 && ps[0].body_start == 0
        &&& self.chords@.len() == (if ps.len() == 0 { 0 } else { ps.last().head_end as int })
        &&& self.scripts@.len() == (if ps.len() == 0 { 0 } else { ps.last().body_end as int })
    }

    /// The storage holds the shortcuts and nothing else: it is tiled by them,
    /// and the chords and sections are those of the shortcuts, one after another.
    pub open spec fn laid_out(&self) -> bool {
        &&& self.tiled()
        &&& chord_keys(self.chords@) == keys_in_order(self.models())
        &&& chords_texts(self.chords@) == texts_in_order(self.models())
        &&& self.scripts@ == commands_in_order(self.models())
    }
}

/// The chords of the shortcuts `ms`, one after another.
pub open spec fn keys_in_order(ms: Seq<ShortcutModel>) -> Seq<ChordKey>
    decreases ms.len(),
{
    if ms.len() == 0 {
        Seq::empty()
    } else {
        keys_in_order(ms.drop_last()) + ms.last().hotkey
    }
}

/// The texts of the chords of the shortcuts `ms`, one after another.
pub open spec fn texts_in_order(ms: Seq<ShortcutModel>) -> Seq<Seq<Seq<char>>>
    decreases ms.len(),
{
    if ms.len() == 0 {
        Seq::empty()
    } else {
        texts_in_order(ms.drop_last()) + ms.last().texts
    }
}

/// The command sections of the shortcuts `ms`, one after another.
pub open spec fn commands_in_order<'a>(ms: Seq<ShortcutModel<'a>>) -> Seq<WithSpan<'a, ()>>
    decreases ms.len(),
{
    if ms.len() == 0 {
        Seq::empty()
    } else {
        commands_in_order(ms.drop_last()) + ms.last().command
    }
}

/// The storage of `o` holds the chords and the command sections of the
/// shortcuts `ms`, one after another, and nothing else (whatever the order of
/// `o`'s own shortcuts).
pub open spec fn stores<'a>(o: ShortcutOwner<'a>, ms: Seq<ShortcutModel<'a>>) -> bool {
    &&& chord_keys(o.chords@) == keys_in_order(ms)
    &&& chords_texts(o.chords@) == texts_in_order(ms)
    &&& o.scripts@ == commands_in_order(ms)
}

/// `parse` and `parse_unsorted` of the same lexemes store the same chords and
/// command sections: those of the shortcuts in the order of the file. Only
/// the order of their shortcuts differs, `parse`'s being the stable sort of
/// `parse_unsorted`'s (see their contracts and `lemma_stable_sort_unique`).
pub proof fn lemma_parse_storage_shared<'a>(sorted: ShortcutOwner<'a>, unsorted: ShortcutOwner<'a>, ms: Seq<ShortcutModel<'a>>)
    requires
        stores(sorted, ms),
        stably_sorted_from(sorted.models(), ms),
        unsorted.laid_out(),
        unsorted.models() == ms,
    ensures
        chord_keys(sorted.chords@) == chord_keys(unsorted.chords@),
        chords_texts(sorted.chords@) == chords_texts(unsorted.chords@),
        sorted.scripts@ == unsorted.scripts@,
        stably_sorted_from(sorted.models(), unsorted.models()),
{
}

/// Storing one more shortcut after the storage keeps it laid out.
proof fn lemma_laid_out_push<'filestr>(o0: ShortcutOwner<'filestr>, o2: ShortcutOwner<'filestr>, p: ShortcutPointer)
    requires
        o0.laid_out(),
        o2.shortcuts@ == o0.shortcuts@.push(p),
        o2.chords@.len() >= o0.chords@.len(),
        o2.scripts@.len() >= o0.scripts@.len(),
        o2.chords@.take(o0.chords@.len() as int) == o0.chords@,
        o2.scripts@.take(o0.scripts@.len() as int) == o0.scripts@,
        p.head_start == o0.chords@.len(),
        p.head_end == o2.chords@.len(),
        p.body_start == o0.scripts@.len(),
        p.body_end == o2.scripts@.len(),
        o2.models() == o0.models().push(o2.pointer_model(p)),
    ensures
        o2.laid_out(),
{
    let ps = o2.shortcuts@;
    assert forall|k: int| 0 < k < ps.len() implies (#[trigger] ps[k]).head_start == ps[k - 1].head_end && ps[k].body_start == ps[k - 1].body_end by {
        if k < ps.len() - 1 {
            assert(ps[k] == o0.shortcuts@[k] && ps[k - 1] == o0.shortcuts@[k - 1]);
        } else {
            assert(ps[k - 1] == o0.shortcuts@.last());
        }
    }
    let m = o2.pointer_model(p);
    let ms = o2.models();
    assert(ms.drop_last() =~= o0.models());
    let c0 = o0.chords@.len() as int;
    let s0 = o0.scripts@.len() as int;
    assert(o2.chords@ =~= o0.chords@ + o2.chords@.subrange(c0, o2.chords@.len() as int));
    assert(o2.scripts@ =~= o0.scripts@ + o2.scripts@.subrange(s0, o2.scripts@.len() as int));
    assert(chord_keys(o2.chords@) =~= chord_keys(o0.chords@) + m.hotkey);
    assert(chords_texts(o2.chords@) =~= chords_texts(o0.chords@) + m.texts);
}

/// `err` is the error `e` in the text `ctx`.
pub open spec fn perr_matches(err: MarkupError, ctx: &str, e: ParseError) -> bool {
    &&& err.source@ == ctx@
    &&& err.range.0 == e.start
    &&& err.range.1 == e.end
    &&& err.message@ == e.message
}

/// Whether one of the chords `chords[from..]` has neither key nor modifier.
fn find_empty_chord(chords: &Vec<Chord>, from: usize) -> (found: bool)
    requires
        from <= chords@.len(),
    ensures
        found == has_empty_chord(chord_keys(chords@.skip(from as int))),
{
    let ghost cs = chord_keys(chords@.skip(from as int));
    let mut j = from;
    while j < chords.len()
        invariant
            from <= j <= chords@.len(),
            cs == chord_keys(chords@.skip(from as int)),
            forall|k: int| 0 <= k < j - from ==> cs[k] != empty_chord(),
        decreases chords@.len() - j,
    {
        if chords[j].key == KEYCODES.len() && chords[j].modifiers == 0 {
            assert(cs[j - from] == empty_chord());
            return true;
        }
        assert(cs[j - from] == chord_key(chords@[j as int]));
        j += 1;
    }
    false
}

/// An error from the first of the spans `ls[start..end]` to the last.
fn error_over_exec<T>(source: &str, ls: &Vec<WithSpan<T>>, start: usize, end: usize, message: &str) -> (err: MarkupError)
    requires
        start <= end <= ls@.len(),
        forall|j: int| start <= j < end ==> (#[trigger] ls@[j]).context == source,
    ensures
        perr_matches(err, source, error_over(ls@.subrange(start as int, end as int), message@)),
{
    if start < end {
        MarkupError::from_span_over(&ls[start], &ls[end - 1], message.to_owned())
    } else {
        MarkupError::from_range(source, (0, 0), message.to_owned())
    }
}

proof fn lemma_build_command_ok<'a>(ctx: &'a str, ls: Seq<WithSpan<'a, BodyLexeme>>, i: nat, j: int)
    requires
        j <= ls.len(),
        forall|x: int| 0 <= x < ls.len() ==> span_ok(ctx, #[trigger] ls[x]),
    ensures
        forall|k: int| 0 <= k < build_command(ls, i, j).len() ==> span_ok(ctx, #[trigger] build_command(ls, i, j)[k]),
    decreases j,
{
    if j > 0 {
        lemma_build_command_ok(ctx, ls, i, j - 1);
        assert(span_ok(ctx, ls[j - 1]));
        let prev = build_command(ls, i, j - 1);
        let cur = build_command(ls, i, j);
        assert forall|k: int| 0 <= k < cur.len() implies span_ok(ctx, #[trigger] cur[k]) by {
            if k < prev.len() {
                assert(cur[k] == prev[k]);
            }
        }
    }
}

proof fn lemma_models_stable<'filestr>(o1: ShortcutOwner<'filestr>, o2: ShortcutOwner<'filestr>)
    requires
        o1.wf(),
        o2.shortcuts@ == o1.shortcuts@,
        o2.chords@.len() >= o1.chords@.len(),
        o2.scripts@.len() >= o1.scripts@.len(),
        o2.chords@.take(o1.chords@.len() as int) == o1.chords@,
        o2.scripts@.take(o1.scripts@.len() as int) == o1.scripts@,
    ensures
        o2.wf(),
        o2.models() == o1.models(),
{
    assert forall|k: int| 0 <= k < o2.shortcuts@.len() implies o2.pointer_ok(#[trigger] o2.shortcuts@[k]) by {
        assert(o1.pointer_ok(o1.shortcuts@[k]));
    }
    assert forall|k: int| 0 <= k < o2.shortcuts@.len() implies #[trigger] o2.models()[k] == o1.models()[k] by {
        let p = o1.shortcuts@[k];
        assert(o1.pointer_ok(p));
        assert(o2.chords@.subrange(p.head_start as int, p.head_end as int)
            =~= o1.chords@.subrange(p.head_start as int, p.head_end as int)) by {
            assert forall|x: int| 0 <= x < p.head_end - p.head_start implies
                o2.chords@.subrange(p.head_start as int, p.head_end as int)[x]
                    == o1.chords@.subrange(p.head_start as int, p.head_end as int)[x] by {
                assert(o2.chords@.take(o1.chords@.len() as int)[p.head_start + x] == o2.chords@[p.head_start + x]);
            }
        }
        assert(o2.scripts@.subrange(p.body_start as int, p.body_end as int)
            =~= o1.scripts@.subrange(p.body_start as int, p.body_end as int)) by {
            assert forall|x: int| 0 <= x < p.body_end - p.body_start implies
                o2.scripts@.subrange(p.body_start as int, p.body_end as int)[x]
                    == o1.scripts@.subrange(p.body_start as int, p.body_end as int)[x] by {
                assert(o2.scripts@.take(o1.scripts@.len() as int)[p.body_start + x] == o2.scripts@[p.body_start + x]);
            }
        }
    }
    assert(o2.models() =~= o1.models());
}

proof fn lemma_models_push<'filestr>(o1: ShortcutOwner<'filestr>, o2: ShortcutOwner<'filestr>, p: ShortcutPointer)
    requires
        o1.wf(),
        o1.pointer_ok(p),
        o2.shortcuts@ == o1.shortcuts@.push(p),
        o2.chords@ == o1.chords@,
        o2.scripts@ == o1.scripts@,
    ensures
        o2.wf(),
        o2.models() == o1.models().push(o1.pointer_model(p)),
{
    assert forall|k: int| 0 <= k < o2.shortcuts@.len() implies o2.pointer_ok(#[trigger] o2.shortcuts@[k]) by {
        if k < o1.shortcuts@.len() {
            assert(o1.pointer_ok(o1.shortcuts@[k]));
        }
    }
    assert(o2.models() =~= o1.models().push(o1.pointer_model(p)));
}

proof fn lemma_parse_err_persists<'a>(
    entries: Seq<PostLexEntry>,
    heads: Seq<WithSpan<'a, HeadLexeme>>,
    bodys: Seq<WithSpan<'a, BodyLexeme>>,
    j: int,
    n: int,
)
    requires
        0 <= j <= n,
        parse_spec(entries, heads, bodys, j) is Err,
    ensures
        parse_spec(entries, heads, bodys, n) == parse_spec(entries, heads, bodys, j),
    decreases n - j,
{
    if n > j {
        lemma_parse_err_persists(entries, heads, bodys, j, n - 1);
    }
}

proof fn lemma_permutations_err_persists<'a>(
    hs: Seq<WithSpan<'a, HeadLexeme>>,
    bs: Seq<WithSpan<'a, BodyLexeme>>,
    is_placeholder: bool,
    j: nat,
    n: nat,
)
    requires
        j <= n,
        permutations(hs, bs, is_placeholder, j) is Err,
    ensures
        permutations(hs, bs, is_placeholder, n) == permutations(hs, bs, is_placeholder, j),
    decreases n - j,
{
    if n > j {
        lemma_permutations_err_persists(hs, bs, is_placeholder, j, (n - 1) as nat);
    }
}

/// Expands every entry of `input` into its shortcuts, in the order of the file.
pub fn parse_main<'filestr>(source: &'filestr str, input: &LexemeLists<'filestr>) -> (r: Result<ShortcutOwner<'filestr>, MarkupError>)
    requires
        input.wf(source),
    ensures
        match parse_spec(input.entries@, input.heads@, input.bodys@, input.entries@.len() as int) {
            Ok(ms) => r matches Ok(o) && o.wf() && o.spans_ok() && o.laid_out() && o.models() == ms && o.source == source,
            Err(e) => r matches Err(err) && perr_matches(err, source, e),
        },
{
    let ghost entries = input.entries@;
    let ghost heads = input.heads@;
    let ghost bodys = input.bodys@;
    let ghost n = entries.len() as int;
    let mut owner = ShortcutOwner { source, chords: Vec::new(), scripts: Vec::new(), shortcuts: Vec::new() };
    proof {
        assert(owner.models() =~= Seq::<ShortcutModel>::empty());
        assert(chord_keys(owner.chords@) =~= Seq::<ChordKey>::empty());
        assert(chords_texts(owner.chords@) =~= Seq::<Seq<Seq<char>>>::empty());
    }
    let mut k: usize = 0;
    while k < input.entries.len()
        invariant
            input.wf(source),
            entries == input.entries@,
            heads == input.heads@,
            bodys == input.bodys@,
            n == entries.len(),
            k <= n,
            owner.source == source,
            owner.wf(),
            owner.spans_ok(),
            owner.laid_out(),
            parse_spec(entries, heads, bodys, k as int) == Ok::<Seq<ShortcutModel<'filestr>>, ParseError>(owner.models()),
        decreases n - k,
    {
        let e = input.entries[k];
        assert(crate::lexer::entry_ok(entries[k as int], heads.len(), bodys.len()));
        let ghost hs = entry_heads(heads, e);
        let ghost bs = entry_bodys(bodys, e);
        let hgs = head_groups_of(&input.heads, e.head_start, e.head_end);
        let bgs = body_groups_of(&input.bodys, e.body_start, e.body_end);
        let count = count_options(&hgs);
        if count_options(&bgs) > count {
            let err = error_over_exec(source, &input.bodys, e.body_start, e.body_end, errors::MORE_BODY_THAN_HEAD_PERMUTATIONS);
            proof { lemma_parse_err_persists(entries, heads, bodys, k + 1, n); }
            return Err(err);
        }
        proof {
            assert forall|j: int| 0 <= j < hs.len() implies span_ok(source, #[trigger] hs[j]) && crate::lexer::head_ok(hs[j].data) by {
                assert(hs[j] == heads[e.head_start + j]);
            }
        }
        let ghost before = owner.models();
        let mut i: usize = 0;
        proof { assert(owner.models().skip(before.len() as int) =~= Seq::<ShortcutModel>::empty()); }
        while i < count
            invariant
                input.wf(source),
                entries == input.entries@,
                heads == input.heads@,
                bodys == input.bodys@,
                n == entries.len(),
                k < n,
                e == entries[k as int],
                e.head_start <= e.head_end <= heads.len(),
                e.body_start <= e.body_end <= bodys.len(),
                hs == entry_heads(heads, e),
                bs == entry_bodys(bodys, e),
                heads_ok(source, hs),
                hgs@ == head_groups(hs),
                bgs@ == body_groups(bs),
                count == options(head_groups(hs), hs.len() as int),
                options(body_groups(bs), bs.len() as int) <= count,
                i <= count,
                owner.source == source,
                owner.wf(),
                owner.spans_ok(),
                owner.laid_out(),
                parse_spec(entries, heads, bodys, k as int) == Ok::<Seq<ShortcutModel<'filestr>>, ParseError>(before),
                owner.models().len() >= before.len(),
                owner.models().take(before.len() as int) == before,
                permutations(hs, bs, e.is_placeholder, i as nat) == Ok::<Seq<ShortcutModel<'filestr>>, ParseError>(owner.models().skip(before.len() as int)),
            decreases count - i,
        {
            let ghost o0 = owner;
            let head_start = owner.chords.len();
            match parse_head_lex_into_chords(&mut owner.chords, source, &input.heads, e.head_start, e.head_end, &hgs, i) {
                Ok(()) => {},
                Err(err) => {
                    proof {
                        lemma_permutations_err_persists(hs, bs, e.is_placeholder, (i + 1) as nat, count as nat);
                        lemma_parse_err_persists(entries, heads, bodys, k + 1, n);
                    }
                    return Err(err);
                },
            }
            if find_empty_chord(&owner.chords, head_start) {
                let err = error_over_exec(source, &input.heads, e.head_start, e.head_end, errors::EMPTY_HOTKEY);
                proof {
                    lemma_permutations_err_persists(hs, bs, e.is_placeholder, (i + 1) as nat, count as nat);
                    lemma_parse_err_persists(entries, heads, bodys, k + 1, n);
                }
                return Err(err);
            }
            let head_end = owner.chords.len();
            let body_start = owner.scripts.len();
            let ghost scripts0 = owner.scripts@;
            parse_body_lex_into_scripts(&mut owner.scripts, &input.bodys, e.body_start, e.body_end, &bgs, i);
            let body_end = owner.scripts.len();
            proof {
                assert forall|j: int| 0 <= j < bs.len() implies span_ok(source, #[trigger] bs[j]) by {
                    assert(bs[j] == bodys[e.body_start + j]);
                }
                lemma_build_command_ok(source, bs, i as nat, bs.len() as int);
                assert forall|x: int| 0 <= x < owner.chords@.len() implies (#[trigger] owner.chords@[x]).context == source by {
                    if x < o0.chords@.len() {
                        assert(owner.chords@[x] == owner.chords@.take(o0.chords@.len() as int)[x]);
                    }
                }
                assert forall|x: int| 0 <= x < owner.scripts@.len() implies span_ok(source, #[trigger] owner.scripts@[x]) by {
                    if x < scripts0.len() {
                        assert(owner.scripts@[x] == owner.scripts@.take(scripts0.len() as int)[x]);
                    } else {
                        assert(owner.scripts@[x] == owner.scripts@.skip(scripts0.len() as int)[x - scripts0.len()]);
                    }
                }
            }
            let (span_start, span_end) = if e.head_start < e.head_end {
                (input.heads[e.head_start].start, input.heads[e.head_end - 1].end)
            } else {
                (0, 0)
            };
            let pointer = ShortcutPointer {
                is_placeholder: e.is_placeholder,
                head_start,
                head_end,
                body_start,
                body_end,
                span_start,
                span_end,
            };
            proof {
                assert(owner.scripts@.take(o0.scripts@.len() as int) =~= o0.scripts@);
                lemma_models_stable(o0, owner);
                assert(owner.chords@.subrange(head_start as int, head_end as int) =~= owner.chords@.skip(head_start as int));
                assert(hs.len() == e.head_end - e.head_start);
                assert(owner.scripts@.subrange(body_start as int, body_end as int) =~= owner.scripts@.skip(body_start as int));
            }
            let ghost o1 = owner;
            owner.shortcuts.push(pointer);
            proof {
                lemma_models_push(o1, owner, pointer);
                assert(owner.chords@.take(o0.chords@.len() as int) =~= o0.chords@);
                assert(owner.scripts@.take(o0.scripts@.len() as int) =~= o0.scripts@);
                lemma_laid_out_push(o0, owner, pointer);
                assert(owner.models().take(before.len() as int) =~= before);
                assert(owner.models().skip(before.len() as int) =~= o1.models().skip(before.len() as int).push(o1.pointer_model(pointer)));
            }
            i += 1;
        }
        proof {
            assert(owner.models() =~= before + owner.models().skip(before.len() as int));
        }
        k += 1;
    }
    Ok(owner)
}

/****************************************************************************
 * Order of hotkeys
 ****************************************************************************/

/// Chords are ordered by key, then by modifiers.
pub open spec fn chord_lt(a: ChordKey, b: ChordKey) -> bool {
    a.key < b.key || (a.key == b.key && a.modifiers < b.modifiers)
}

/// Hotkeys are ordered lexicographically by chord; a prefix comes first.
pub open spec fn hotkey_le(a: Seq<ChordKey>, b: Seq<ChordKey>) -> bool
    decreases a.len(),
{
    if a.len() == 0 {
        true
    } else if b.len() == 0 {
        false
    } else if chord_lt(a[0], b[0]) {
        true
    } else if a[0] == b[0] {
        hotkey_le(a.drop_first(), b.drop_first())
    } else {
        false
    }
}

/// `a` is the start of `b` (or equal to it).
pub open spec fn is_prefix(a: Seq<ChordKey>, b: Seq<ChordKey>) -> bool {
    a.len() <= b.len() && b.take(a.len() as int) == a
}

pub proof fn lemma_hotkey_le_total(a: Seq<ChordKey>, b: Seq<ChordKey>)
    ensures
        hotkey_le(a, b) || hotkey_le(b, a),
    decreases a.len(),
{
    if a.len() > 0 && b.len() > 0 && a[0] == b[0] {
        lemma_hotkey_le_total(a.drop_first(), b.drop_first());
    }
}

pub proof fn lemma_hotkey_le_trans(a: Seq<ChordKey>, b: Seq<ChordKey>, c: Seq<ChordKey>)
    requires
        hotkey_le(a, b),
        hotkey_le(b, c),
    ensures
        hotkey_le(a, c),
    decreases a.len(),
{
    if a.len() > 0 && b.len() > 0 && c.len() > 0 && a[0] == b[0] && b[0] == c[0] {
        lemma_hotkey_le_trans(a.drop_first(), b.drop_first(), c.drop_first());
    }
}

pub proof fn lemma_hotkey_le_antisym(a: Seq<ChordKey>, b: Seq<ChordKey>)
    requires
        hotkey_le(a, b),
        hotkey_le(b, a),
    ensures
        a == b,
    decreases a.len(),
{
    if a.len() > 0 && b.len() > 0 {
        lemma_hotkey_le_antisym(a.drop_first(), b.drop_first());
        assert(a =~= seq![a[0]] + a.drop_first());
        assert(b =~= seq![b[0]] + b.drop_first());
    } else {
        assert(a =~= b);
    }
}

pub proof fn lemma_prefix_le(a: Seq<ChordKey>, b: Seq<ChordKey>)
    requires
        is_prefix(a, b),
    ensures
        hotkey_le(a, b),
    decreases a.len(),
{
    if a.len() > 0 {
        assert(a[0] == b.take(a.len() as int)[0]);
        assert(b.drop_first().take(a.drop_first().len() as int) =~= a.drop_first()) by {
            assert forall|x: int| 0 <= x < a.len() - 1 implies b.drop_first()[x] == a.drop_first()[x] by {
                assert(b.take(a.len() as int)[x + 1] == a[x + 1]);
            }
        }
        lemma_prefix_le(a.drop_first(), b.drop_first());
    }
}

/// A hotkey ordered between `a` and a hotkey that starts with `a` starts with `a` too.
pub proof fn lemma_prefix_sandwich(a: Seq<ChordKey>, b: Seq<ChordKey>, c: Seq<ChordKey>)
    requires
        is_prefix(a, b),
        hotkey_le(a, c),
        hotkey_le(c, b),
    ensures
        is_prefix(a, c),
    decreases a.len(),
{
    if a.len() == 0 {
        assert(c.take(0) =~= a);
    } else {
        assert(a[0] == b.take(a.len() as int)[0]);
        assert(c.len() > 0);
        assert(a[0] == c[0]);
        let a1 = a.drop_first();
        let b1 = b.drop_first();
        let c1 = c.drop_first();
        assert(b1.take(a1.len() as int) =~= a1) by {
            assert forall|x: int| 0 <= x < a1.len() implies b1.take(a1.len() as int)[x] == a1[x] by {
                assert(b.take(a.len() as int)[x + 1] == a[x + 1]);
            }
        }
        lemma_prefix_sandwich(a1, b1, c1);
        assert(c.take(a.len() as int) =~= a) by {
            assert forall|x: int| 0 <= x < a.len() implies c.take(a.len() as int)[x] == a[x] by {
                if x > 0 {
                    assert(c1.take(a1.len() as int)[x - 1] == a1[x - 1]);
                }
            }
        }
    }
}

/// `ms` is sorted by hotkey.
pub open spec fn sorted_by_hotkey(ms: Seq<ShortcutModel>) -> bool {
    forall|i: int, j: int| 0 <= i < j < ms.len() ==> hotkey_le(#[trigger] ms[i].hotkey, #[trigger] ms[j].hotkey)
}

/// No hotkey of `ms` starts with the hotkey of another shortcut of `ms`: every
/// hotkey can be typed, and none is defined twice.
pub open spec fn prefix_free(ms: Seq<ShortcutModel>) -> bool {
    forall|i: int, j: int| 0 <= i < ms.len() && 0 <= j < ms.len() && i != j
        ==> !is_prefix(#[trigger] ms[i].hotkey, #[trigger] ms[j].hotkey)
}

/// Neighbours of `ms` do not overlap.
pub open spec fn neighbours_free(ms: Seq<ShortcutModel>) -> bool {
    forall|i: int| 0 <= i && i + 1 < ms.len() ==> !is_prefix(#[trigger] ms[i].hotkey, ms[i + 1].hotkey)
}

/// In a list sorted by hotkey, a hotkey that starts another one also starts
/// its right neighbour: checking neighbours finds every overlap.
pub proof fn lemma_neighbours_suffice(ms: Seq<ShortcutModel>)
    requires
        sorted_by_hotkey(ms),
    ensures
        neighbours_free(ms) <==> prefix_free(ms),
{
    if neighbours_free(ms) {
        assert forall|i: int, j: int| 0 <= i < ms.len() && 0 <= j < ms.len() && i != j
            implies !is_prefix(#[trigger] ms[i].hotkey, #[trigger] ms[j].hotkey) by {
            if is_prefix(ms[i].hotkey, ms[j].hotkey) {
                if i < j {
                    assert(hotkey_le(ms[i].hotkey, ms[i + 1].hotkey));
                    if i + 1 < j {
                        assert(hotkey_le(ms[i + 1].hotkey, ms[j].hotkey));
                    }
                    lemma_prefix_sandwich(ms[i].hotkey, ms[j].hotkey, ms[i + 1].hotkey);
                    assert(!is_prefix(ms[i].hotkey, ms[i + 1].hotkey));
                } else {
                    // the later hotkey starts the earlier one: they are equal
                    lemma_prefix_le(ms[i].hotkey, ms[j].hotkey);
                    assert(hotkey_le(ms[j].hotkey, ms[i].hotkey));
                    lemma_hotkey_le_antisym(ms[i].hotkey, ms[j].hotkey);
                    assert(ms[j].hotkey.take(ms[j].hotkey.len() as int) =~= ms[j].hotkey);
                    assert(is_prefix(ms[j].hotkey, ms[i].hotkey));
                    assert(hotkey_le(ms[j].hotkey, ms[j + 1].hotkey));
                    if j + 1 < i {
                        assert(hotkey_le(ms[j + 1].hotkey, ms[i].hotkey));
                    }
                    lemma_prefix_sandwich(ms[j].hotkey, ms[i].hotkey, ms[j + 1].hotkey);
                    assert(!is_prefix(ms[j].hotkey, ms[j + 1].hotkey));
                }
            }
        }
    }
}

/****************************************************************************
 * Sorting and overlaps
 ****************************************************************************/

impl<'filestr> ShortcutOwner<'filestr> {
    /// The chords of the shortcut that `p` points at.
    pub open spec fn hotkey_of(&self, p: ShortcutPointer) -> Seq<ChordKey> {
        chord_keys(self.chords@.subrange(p.head_start as int, p.head_end as int))
    }

    /// Whether the hotkey of `a` comes before or equals that of `b`.
    fn hotkey_le_exec(&self, a: ShortcutPointer, b: ShortcutPointer) -> (le: bool)
        requires
            self.pointer_ok(a),
            self.pointer_ok(b),
        ensures
            le == hotkey_le(self.hotkey_of(a), self.hotkey_of(b)),
    {
        let ghost ha = self.hotkey_of(a);
        let ghost hb = self.hotkey_of(b);
        let alen = a.head_end - a.head_start;
        let blen = b.head_end - b.head_start;
        let mut t: usize = 0;
        proof {
            assert(ha.skip(0) =~= ha);
            assert(hb.skip(0) =~= hb);
        }
        while t < alen && t < blen
            invariant
                self.pointer_ok(a),
                self.pointer_ok(b),
                ha == self.hotkey_of(a),
                hb == self.hotkey_of(b),
                alen == ha.len(),
                blen == hb.len(),
                t <= alen,
                t <= blen,
                hotkey_le(ha, hb) == hotkey_le(ha.skip(t as int), hb.skip(t as int)),
            decreases alen - t,
        {
            let x = &self.chords[a.head_start + t];
            let y = &self.chords[b.head_start + t];
            assert(ha.skip(t as int)[0] == chord_key(*x));
            assert(hb.skip(t as int)[0] == chord_key(*y));
            if x.key < y.key || (x.key == y.key && x.modifiers < y.modifiers) {
                return true;
            }
            if !(x.key == y.key && x.modifiers == y.modifiers) {
                return false;
            }
            assert(ha.skip(t as int).drop_first() =~= ha.skip(t + 1));
            assert(hb.skip(t as int).drop_first() =~= hb.skip(t + 1));
            t += 1;
        }
        alen <= blen
    }

    /// Sorts the shortcuts by hotkey (stable: equal hotkeys keep their order).
    pub fn sort(&mut self)
        requires
            old(self).wf(),
        ensures
            final(self).wf(),
            final(self).source == old(self).source,
            final(self).chords@ == old(self).chords@,
            final(self).scripts@ == old(self).scripts@,
            permutes(final(self).shortcuts@, old(self).shortcuts@),
            stably_sorted_from(final(self).models(), old(self).models()),
    {
        let mut out: Vec<ShortcutPointer> = Vec::new();
        let ghost mut f: Seq<int> = Seq::empty();
        let ghost mut g: Seq<int> = Seq::empty();
        let mut k: usize = 0;
        while k < self.shortcuts.len()
            invariant
                self.wf(),
                k <= self.shortcuts@.len(),
                out@.len() == k,
                f.len() == k,
                g.len() == k,
                forall|x: int| 0 <= x < k ==> 0 <= #[trigger] f[x] < k && g[f[x]] == x && out@[x] == self.shortcuts@[f[x]],
                forall|i: int| 0 <= i < k ==> 0 <= #[trigger] g[i] < k && f[g[i]] == i,
                forall|x: int| 0 <= x < out@.len() ==> self.pointer_ok(#[trigger] out@[x]),
                forall|x: int, y: int| 0 <= x < y < out@.len() ==> hotkey_le(self.hotkey_of(#[trigger] out@[x]), self.hotkey_of(#[trigger] out@[y])),
                forall|x: int, y: int| 0 <= x < y < out@.len() && self.hotkey_of(out@[x]) == self.hotkey_of(out@[y])
                    ==> #[trigger] f[x] < #[trigger] f[y],
            decreases self.shortcuts@.len() - k,
        {
            let item = self.shortcuts[k];
            assert(self.pointer_ok(self.shortcuts@[k as int]));
            let mut pos: usize = 0;
            while pos < out.len() && self.hotkey_le_exec(out[pos], item)
                invariant
                    self.wf(),
                    self.pointer_ok(item),
                    pos <= out@.len(),
                    forall|x: int| 0 <= x < out@.len() ==> self.pointer_ok(#[trigger] out@[x]),
                    forall|x: int| 0 <= x < pos ==> hotkey_le(self.hotkey_of(#[trigger] out@[x]), self.hotkey_of(item)),
                decreases out@.len() - pos,
            {
                pos += 1;
            }
            let ghost before = out@;
            let ghost f0 = f;
            let ghost g0 = g;
            proof {
                if pos < out@.len() {
                    lemma_hotkey_le_total(self.hotkey_of(out@[pos as int]), self.hotkey_of(item));
                }
            }
            out.insert(pos, item);
            proof {
                f = f0.insert(pos as int, k as int);
                g = Seq::new((k + 1) as nat, |i: int| if i == k { pos as int } else if g0[i] >= pos { g0[i] + 1 } else { g0[i] });
                assert forall|x: int| 0 <= x < k + 1 implies 0 <= #[trigger] f[x] < k + 1 && g[f[x]] == x && out@[x] == self.shortcuts@[f[x]] by {
                    if x < pos {
                        assert(f[x] == f0[x]);
                        assert(out@[x] == before[x]);
                    } else if x > pos {
                        assert(f[x] == f0[x - 1]);
                        assert(out@[x] == before[x - 1]);
                    }
                }
                assert forall|i: int| 0 <= i < k + 1 implies 0 <= #[trigger] g[i] < k + 1 && f[g[i]] == i by {
                    if i < k {
                        if g0[i] >= pos {
                            assert(f[g0[i] + 1] == f0[g0[i]]);
                        } else {
                            assert(f[g0[i]] == f0[g0[i]]);
                        }
                    }
                }
                assert forall|x: int, y: int| 0 <= x < y < out@.len()
                    implies hotkey_le(self.hotkey_of(#[trigger] out@[x]), self.hotkey_of(#[trigger] out@[y])) by {
                    if y < pos {
                        assert(out@[x] == before[x] && out@[y] == before[y]);
                    } else if y == pos {
                        assert(out@[x] == before[x]);
                    } else if x == pos {
                        assert(out@[y] == before[y - 1]);
                        if y - 1 > pos {
                            assert(hotkey_le(self.hotkey_of(before[pos as int]), self.hotkey_of(before[y - 1])));
                            lemma_hotkey_le_trans(self.hotkey_of(item), self.hotkey_of(before[pos as int]), self.hotkey_of(before[y - 1]));
                        }
                    } else if x < pos {
                        assert(out@[x] == before[x] && out@[y] == before[y - 1]);
                    } else {
                        assert(out@[x] == before[x - 1] && out@[y] == before[y - 1]);
                    }
                }
                assert forall|x: int| 0 <= x < out@.len() implies self.pointer_ok(#[trigger] out@[x]) by {
                    if x < pos {
                        assert(out@[x] == before[x]);
                    } else if x > pos {
                        assert(out@[x] == before[x - 1]);
                    }
                }
                assert forall|x: int, y: int| 0 <= x < y < out@.len() && self.hotkey_of(out@[x]) == self.hotkey_of(out@[y])
                    implies #[trigger] f[x] < #[trigger] f[y] by {
                    if y < pos {
                        assert(out@[x] == before[x] && out@[y] == before[y]);
                        assert(f[x] == f0[x] && f[y] == f0[y]);
                    } else if y == pos {
                        assert(f[x] == f0[x]);
                    } else if x == pos {
                        assert(out@[y] == before[y - 1]);
                        if y - 1 > pos {
                            assert(hotkey_le(self.hotkey_of(before[pos as int]), self.hotkey_of(before[y - 1])));
                        }
                        assert(hotkey_le(self.hotkey_of(before[pos as int]), self.hotkey_of(item)));
                        assert(false);
                    } else if x < pos {
                        assert(out@[x] == before[x] && out@[y] == before[y - 1]);
                        assert(f[x] == f0[x] && f[y] == f0[y - 1]);
                    } else {
                        assert(out@[x] == before[x - 1] && out@[y] == before[y - 1]);
                        assert(f[x] == f0[x - 1] && f[y] == f0[y - 1]);
                    }
                }
            }
            k += 1;
        }
        let ghost old_self = *self;
        self.shortcuts = out;
        proof {
            assert(is_bijection(f, g, self.shortcuts@.len()));
            assert forall|x: int| 0 <= x < self.shortcuts@.len() implies self.shortcuts@[x] == old_self.shortcuts@[#[trigger] f[x]] by {}
            assert forall|k: int| 0 <= k < self.shortcuts@.len() implies self.pointer_ok(#[trigger] self.shortcuts@[k]) by {
                assert(old_self.pointer_ok(self.shortcuts@[k]));
            }
            assert forall|i: int, j: int| 0 <= i < j < self.models().len()
                implies hotkey_le(#[trigger] self.models()[i].hotkey, #[trigger] self.models()[j].hotkey) by {
                assert(self.models()[i].hotkey == old_self.hotkey_of(self.shortcuts@[i]));
                assert(self.models()[j].hotkey == old_self.hotkey_of(self.shortcuts@[j]));
            }
            assert forall|x: int| 0 <= x < self.models().len() implies self.models()[x] == old_self.models()[#[trigger] f[x]] by {
                assert(self.shortcuts@[x] == old_self.shortcuts@[f[x]]);
            }
            assert forall|x: int, y: int| 0 <= x < y < self.models().len() && self.models()[x].hotkey == self.models()[y].hotkey
                implies #[trigger] f[x] < #[trigger] f[y] by {
                assert(self.models()[x].hotkey == old_self.hotkey_of(self.shortcuts@[x]));
                assert(self.models()[y].hotkey == old_self.hotkey_of(self.shortcuts@[y]));
            }
            assert(is_bijection(f, g, self.models().len()));
        }
    }
}

/// `f` and `g` are bijections of `0..n`, each the inverse of the other.
pub open spec fn is_bijection(f: Seq<int>, g: Seq<int>, n: nat) -> bool {
    &&& f.len() == n
    &&& g.len() == n
    &&& forall|x: int| 0 <= x < n ==> 0 <= #[trigger] f[x] < n && g[f[x]] == x
    &&& forall|i: int| 0 <= i < n ==> 0 <= #[trigger] g[i] < n && f[g[i]] == i
}

/// `a` holds the shortcuts of `b` sorted by hotkey, those with equal hotkeys
/// in the order they have in `b`: `a[x] == b[f[x]]` for a bijection `f` that
/// keeps the order of equal hotkeys.
pub open spec fn stably_sorted_from(a: Seq<ShortcutModel>, b: Seq<ShortcutModel>) -> bool {
    &&& sorted_by_hotkey(a)
    &&& a.len() == b.len()
    &&& exists|f: Seq<int>, g: Seq<int>| #[trigger] is_bijection(f, g, a.len())
            && (forall|x: int| 0 <= x < a.len() ==> a[x] == b[#[trigger] f[x]])
            && (forall|x: int, y: int| 0 <= x < y < a.len() && a[x].hotkey == a[y].hotkey ==> #[trigger] f[x] < #[trigger] f[y])
}

/// A stable sort rearranges the shortcuts, and keeps them free of overlaps
/// exactly when they were: so the shortcuts of `parse` (stably sorted) are
/// those of `parse_unsorted` (in the order of the file), and the one refuses
/// an overlap where the other does.
pub proof fn lemma_stably_sorted_permutes<'a>(a: Seq<ShortcutModel<'a>>, b: Seq<ShortcutModel<'a>>)
    requires
        stably_sorted_from(a, b),
    ensures
        permutes(a, b),
        sorted_by_hotkey(a),
        prefix_free(a) <==> prefix_free(b),
{
    let (f, g) = choose|f: Seq<int>, g: Seq<int>| #[trigger] is_bijection(f, g, a.len())
        && (forall|x: int| 0 <= x < a.len() ==> a[x] == b[#[trigger] f[x]])
        && (forall|x: int, y: int| 0 <= x < y < a.len() && a[x].hotkey == a[y].hotkey ==> #[trigger] f[x] < #[trigger] f[y]);
    assert(is_bijection(f, g, a.len()) && forall|x: int| 0 <= x < a.len() ==> a[x] == b[#[trigger] f[x]]);
    lemma_prefix_free_permutes(a, b);
}

/// Shortcut `i` of `b` comes before shortcut `j` in a stable sort by hotkey.
pub open spec fn stably_before(b: Seq<ShortcutModel>, i: int, j: int) -> bool {
    hotkey_le(b[i].hotkey, b[j].hotkey) && (b[i].hotkey == b[j].hotkey ==> i < j)
}

proof fn lemma_stably_before_asym(b: Seq<ShortcutModel>, i: int, j: int)
    requires
        stably_before(b, i, j),
    ensures
        !stably_before(b, j, i),
{
    if hotkey_le(b[j].hotkey, b[i].hotkey) {
        lemma_hotkey_le_antisym(b[i].hotkey, b[j].hotkey);
    }
}

/// In a stable sort `a` of `b` (with `a[x] == b[f[x]]`, `g` the inverse of
/// `f`), shortcut `i` of `b` lands before shortcut `j` only if it comes before it.
proof fn lemma_stable_positions<'a>(a: Seq<ShortcutModel<'a>>, b: Seq<ShortcutModel<'a>>, f: Seq<int>, g: Seq<int>, i: int, j: int)
    requires
        sorted_by_hotkey(a),
        a.len() == b.len(),
        is_bijection(f, g, a.len()),
        forall|x: int| 0 <= x < a.len() ==> a[x] == b[#[trigger] f[x]],
        forall|x: int, y: int| 0 <= x < y < a.len() && a[x].hotkey == a[y].hotkey ==> #[trigger] f[x] < #[trigger] f[y],
        0 <= i < b.len(),
        0 <= j < b.len(),
        g[i] < g[j],
    ensures
        stably_before(b, i, j),
{
    let x = g[i];
    let y = g[j];
    assert(f[x] == i && f[y] == j);
    assert(a[x] == b[i] && a[y] == b[j]);
    assert(hotkey_le(a[x].hotkey, a[y].hotkey));
}

/// A strictly increasing map of `0..n` into itself is the identity.
pub(crate) proof fn lemma_increasing_identity(h: Seq<int>, n: int, x: int)
    requires
        h.len() == n,
        0 <= x < n,
        forall|y: int| 0 <= y < n ==> 0 <= #[trigger] h[y] < n,
        forall|y: int, z: int| 0 <= y < z < n ==> #[trigger] h[y] < #[trigger] h[z],
    ensures
        h[x] == x,
{
    lemma_increasing_lower(h, n, x);
    lemma_increasing_upper(h, n, x);
}

proof fn lemma_increasing_lower(h: Seq<int>, n: int, x: int)
    requires
        h.len() == n,
        0 <= x < n,
        forall|y: int| 0 <= y < n ==> 0 <= #[trigger] h[y] < n,
        forall|y: int, z: int| 0 <= y < z < n ==> #[trigger] h[y] < #[trigger] h[z],
    ensures
        h[x] >= x,
    decreases x,
{
    if x > 0 {
        lemma_increasing_lower(h, n, x - 1);
        assert(h[x - 1] < h[x]);
    }
}

proof fn lemma_increasing_upper(h: Seq<int>, n: int, x: int)
    requires
        h.len() == n,
        0 <= x < n,
        forall|y: int| 0 <= y < n ==> 0 <= #[trigger] h[y] < n,
        forall|y: int, z: int| 0 <= y < z < n ==> #[trigger] h[y] < #[trigger] h[z],
    ensures
        h[x] <= x,
    decreases n - x,
{
    if x < n - 1 {
        lemma_increasing_upper(h, n, x + 1);
        assert(h[x] < h[x + 1]);
    }
}

/// A stable sort by hotkey is unique: two stable sorts of the same shortcuts
/// are equal. So the order that `parse` gives, and the overlap it reports, are
/// determined by the shortcuts of the file.
pub proof fn lemma_stable_sort_unique<'a>(a1: Seq<ShortcutModel<'a>>, a2: Seq<ShortcutModel<'a>>, b: Seq<ShortcutModel<'a>>)
    requires
        stably_sorted_from(a1, b),
        stably_sorted_from(a2, b),
    ensures
        a1 == a2,
{
    let n = b.len() as int;
    let (f1, g1) = choose|f: Seq<int>, g: Seq<int>| #[trigger] is_bijection(f, g, a1.len())
        && (forall|x: int| 0 <= x < a1.len() ==> a1[x] == b[#[trigger] f[x]])
        && (forall|x: int, y: int| 0 <= x < y < a1.len() && a1[x].hotkey == a1[y].hotkey ==> #[trigger] f[x] < #[trigger] f[y]);
    let (f2, g2) = choose|f: Seq<int>, g: Seq<int>| #[trigger] is_bijection(f, g, a2.len())
        && (forall|x: int| 0 <= x < a2.len() ==> a2[x] == b[#[trigger] f[x]])
        && (forall|x: int, y: int| 0 <= x < y < a2.len() && a2[x].hotkey == a2[y].hotkey ==> #[trigger] f[x] < #[trigger] f[y]);
    let h = Seq::new(n as nat, |x: int| g2[f1[x]]);
    assert forall|y: int| 0 <= y < n implies 0 <= #[trigger] h[y] < n by {}
    assert forall|y: int, z: int| 0 <= y < z < n implies #[trigger] h[y] < #[trigger] h[z] by {
        let i = f1[y];
        let j = f1[z];
        assert(g1[i] == y && g1[j] == z);
        lemma_stable_positions(a1, b, f1, g1, i, j);
        if g2[j] < g2[i] {
            lemma_stable_positions(a2, b, f2, g2, j, i);
            lemma_stably_before_asym(b, i, j);
        }
        if g2[j] == g2[i] {
            assert(f2[g2[i]] == i && f2[g2[j]] == j);
        }
    }
    assert forall|x: int| 0 <= x < n implies a1[x] == a2[x] by {
        lemma_increasing_identity(h, n, x);
        assert(g2[f1[x]] == x);
        assert(f2[g2[f1[x]]] == f1[x]);
    }
    assert(a1 =~= a2);
}

/// `a` holds the items of `b`, rearranged: `a[x] == b[f[x]]` for a bijection `f`.
pub open spec fn permutes<T>(a: Seq<T>, b: Seq<T>) -> bool {
    &&& a.len() == b.len()
    &&& exists|f: Seq<int>, g: Seq<int>| #[trigger] is_bijection(f, g, a.len())
            && forall|x: int| 0 <= x < a.len() ==> a[x] == b[#[trigger] f[x]]
}

/// Rearranging the shortcuts rearranges their models alike.
proof fn lemma_models_permute<'filestr>(o1: ShortcutOwner<'filestr>, o2: ShortcutOwner<'filestr>)
    requires
        o1.wf(),
        o2.chords@ == o1.chords@,
        o2.scripts@ == o1.scripts@,
        permutes(o2.shortcuts@, o1.shortcuts@),
    ensures
        permutes(o2.models(), o1.models()),
{
    let (f, g) = choose|f: Seq<int>, g: Seq<int>| #[trigger] is_bijection(f, g, o2.shortcuts@.len())
        && forall|x: int| 0 <= x < o2.shortcuts@.len() ==> o2.shortcuts@[x] == o1.shortcuts@[#[trigger] f[x]];
    assert forall|x: int| 0 <= x < o2.models().len() implies o2.models()[x] == o1.models()[#[trigger] f[x]] by {
        assert(o2.shortcuts@[x] == o1.shortcuts@[f[x]]);
    }
    assert(is_bijection(f, g, o2.models().len()));
}

/// Whether hotkeys overlap does not depend on the order of the shortcuts.
pub proof fn lemma_prefix_free_permutes<'a>(a: Seq<ShortcutModel<'a>>, b: Seq<ShortcutModel<'a>>)
    requires
        permutes(a, b),
    ensures
        prefix_free(a) <==> prefix_free(b),
{
    let (f, g) = choose|f: Seq<int>, g: Seq<int>| #[trigger] is_bijection(f, g, a.len())
        && forall|x: int| 0 <= x < a.len() ==> a[x] == b[#[trigger] f[x]];
    if prefix_free(b) {
        assert forall|i: int, j: int| 0 <= i < a.len() && 0 <= j < a.len() && i != j
            implies !is_prefix(#[trigger] a[i].hotkey, #[trigger] a[j].hotkey) by {
            assert(a[i] == b[f[i]] && a[j] == b[f[j]]);
            assert(g[f[i]] == i && g[f[j]] == j);
        }
    }
    if prefix_free(a) {
        assert forall|i: int, j: int| 0 <= i < b.len() && 0 <= j < b.len() && i != j
            implies !is_prefix(#[trigger] b[i].hotkey, #[trigger] b[j].hotkey) by {
            assert(f[g[i]] == i && f[g[j]] == j);
            assert(a[g[i]] == b[i] && a[g[j]] == b[j]);
        }
    }
}

/****************************************************************************
 * Overlaps and the parse workflow
 ****************************************************************************/

/// The error for an overlap of the hotkeys of `ms[i]` and `ms[i + 1]`: a
/// repeated hotkey, or one that cannot be reached because the earlier one,
/// which starts it, is recognised first. It points at the head of `ms[i + 1]`.
pub open spec fn overlap_error(ms: Seq<ShortcutModel>, i: int) -> ParseError {
    ParseError {
        start: ms[i + 1].span_start,
        end: ms[i + 1].span_end,
        message: if ms[i].hotkey == ms[i + 1].hotkey { errors::HOTKEY_DUPLICATE@ } else { errors::HOTKEY_UNREACHABLE@ },
    }
}

/// `i` is the first place where a hotkey of `ms` starts the next one.
pub open spec fn first_overlap(ms: Seq<ShortcutModel>, i: int) -> bool {
    &&& 0 <= i && i + 1 < ms.len()
    &&& is_prefix(ms[i].hotkey, ms[i + 1].hotkey)
    &&& forall|j: int| 0 <= j < i ==> !is_prefix(#[trigger] ms[j].hotkey, ms[j + 1].hotkey)
}

/// `err` reports the first overlap of the shortcuts `ms` once stably sorted by hotkey.
pub open spec fn overlap_reported(err: MarkupError, source: &str, ms: Seq<ShortcutModel>) -> bool {
    exists|sorted: Seq<ShortcutModel>, i: int|
        stably_sorted_from(sorted, ms) && #[trigger] first_overlap(sorted, i)
            && perr_matches(err, source, overlap_error(sorted, i))
}

/// The error reported for overlapping shortcuts is determined by them: two
/// reports of the first overlap of `ms` agree in text, range and message. So
/// `parse`, `parse_unsorted` and `parse_to_shortcuts` refuse the same file
/// with the same error.
pub proof fn lemma_overlap_report_unique<'a>(e1: MarkupError, e2: MarkupError, source: &str, ms: Seq<ShortcutModel<'a>>)
    requires
        overlap_reported(e1, source, ms),
        overlap_reported(e2, source, ms),
    ensures
        e1.source@ == e2.source@,
        e1.range == e2.range,
        e1.message@ == e2.message@,
{
    let (s1, i1) = choose|sorted: Seq<ShortcutModel>, i: int|
        stably_sorted_from(sorted, ms) && #[trigger] first_overlap(sorted, i) && perr_matches(e1, source, overlap_error(sorted, i));
    let (s2, i2) = choose|sorted: Seq<ShortcutModel>, i: int|
        stably_sorted_from(sorted, ms) && #[trigger] first_overlap(sorted, i) && perr_matches(e2, source, overlap_error(sorted, i));
    lemma_stable_sort_unique(s1, s2, ms);
    if i1 < i2 {
        assert(!is_prefix(s2[i1].hotkey, s2[i1 + 1].hotkey));
    }
    if i2 < i1 {
        assert(!is_prefix(s1[i2].hotkey, s1[i2 + 1].hotkey));
    }
}

impl<'filestr> ShortcutOwner<'filestr> {
    /// Whether the hotkey of `a` starts (or equals) that of `b`.
    fn hotkey_is_prefix_exec(&self, a: ShortcutPointer, b: ShortcutPointer) -> (r: bool)
        requires
            self.pointer_ok(a),
            self.pointer_ok(b),
        ensures
            r == is_prefix(self.hotkey_of(a), self.hotkey_of(b)),
    {
        let ghost ha = self.hotkey_of(a);
        let ghost hb = self.hotkey_of(b);
        let alen = a.head_end - a.head_start;
        let blen = b.head_end - b.head_start;
        if alen > blen {
            return false;
        }
        let mut t: usize = 0;
        while t < alen
            invariant
                self.pointer_ok(a),
                self.pointer_ok(b),
                ha == self.hotkey_of(a),
                hb == self.hotkey_of(b),
                alen == ha.len(),
                blen == hb.len(),
                alen <= blen,
                t <= alen,
                forall|x: int| 0 <= x < t ==> ha[x] == hb[x],
            decreases alen - t,
        {
            let x = &self.chords[a.head_start + t];
            let y = &self.chords[b.head_start + t];
            assert(ha[t as int] == chord_key(*x));
            assert(hb[t as int] == chord_key(*y));
            if x.key != y.key || x.modifiers != y.modifiers {
                assert(hb.take(alen as int)[t as int] != ha[t as int]);
                return false;
            }
            t += 1;
        }
        assert(hb.take(alen as int) =~= ha);
        true
    }

    /// The shortcuts, each with its chords and the sections of its command.
    pub fn to_iter<'me>(&'me self) -> (list: Vec<Shortcut<'me, 'filestr>>)
        requires
            self.wf(),
        ensures
            list@.len() == self.shortcuts@.len(),
            forall|k: int| 0 <= k < list@.len() ==> {
                let p = #[trigger] self.shortcuts@[k];
                &&& list@[k].is_placeholder == p.is_placeholder
                &&& list@[k].hotkey@ == self.chords@.subrange(p.head_start as int, p.head_end as int)
                &&& list@[k].command@ == self.scripts@.subrange(p.body_start as int, p.body_end as int)
            },
    {
        let mut list: Vec<Shortcut<'me, 'filestr>> = Vec::new();
        let mut k: usize = 0;
        while k < self.shortcuts.len()
            invariant
                self.wf(),
                k <= self.shortcuts@.len(),
                list@.len() == k,
                forall|x: int| 0 <= x < k ==> {
                    let p = #[trigger] self.shortcuts@[x];
                    &&& list@[x].is_placeholder == p.is_placeholder
                    &&& list@[x].hotkey@ == self.chords@.subrange(p.head_start as int, p.head_end as int)
                    &&& list@[x].command@ == self.scripts@.subrange(p.body_start as int, p.body_end as int)
                },
            decreases self.shortcuts@.len() - k,
        {
            let p = self.shortcuts[k];
            assert(self.pointer_ok(self.shortcuts@[k as int]));
            let hotkey = vstd::slice::slice_subrange(self.chords.as_slice(), p.head_start, p.head_end);
            let command = vstd::slice::slice_subrange(self.scripts.as_slice(), p.body_start, p.body_end);
            list.push(Shortcut { is_placeholder: p.is_placeholder, hotkey, command });
            k += 1;
        }
        list
    }
}

/// Checks that no hotkey of the sorted shortcuts starts the next one. The
/// first such pair gives the error.
fn verify_no_overlap(sorted_shortcuts: &ShortcutOwner) -> (r: Result<(), MarkupError>)
    requires
        sorted_shortcuts.wf(),
        sorted_by_hotkey(sorted_shortcuts.models()),
    ensures
        r is Ok <==> neighbours_free(sorted_shortcuts.models()),
        r matches Err(err) ==> exists|i: int| #[trigger] first_overlap(sorted_shortcuts.models(), i)
            && perr_matches(err, sorted_shortcuts.source, overlap_error(sorted_shortcuts.models(), i)),
{
    let o = sorted_shortcuts;
    let ghost ms = o.models();
    let n = o.shortcuts.len();
    if n == 0 {
        return Ok(());
    }
    let mut i: usize = 0;
    while i + 1 < n
        invariant
            o == sorted_shortcuts,
            o.wf(),
            ms == o.models(),
            n == ms.len(),
            n >= 1,
            i + 1 <= n,
            forall|j: int| 0 <= j < i ==> !is_prefix(#[trigger] ms[j].hotkey, ms[j + 1].hotkey),
        decreases n - i,
    {
        let prev = o.shortcuts[i];
        let curr = o.shortcuts[i + 1];
        assert(o.pointer_ok(o.shortcuts@[i as int]));
        assert(o.pointer_ok(o.shortcuts@[i + 1]));
        assert(ms[i as int].hotkey == o.hotkey_of(prev));
        assert(ms[i + 1].hotkey == o.hotkey_of(curr));
        if o.hotkey_is_prefix_exec(prev, curr) {
            let same_len = prev.head_end - prev.head_start == curr.head_end - curr.head_start;
            proof {
                if same_len {
                    assert(ms[i + 1].hotkey.take(ms[i as int].hotkey.len() as int) =~= ms[i + 1].hotkey);
                }
            }
            let message = if same_len { errors::HOTKEY_DUPLICATE } else { errors::HOTKEY_UNREACHABLE };
            let err = MarkupError::from_range(o.source, (curr.span_start, curr.span_end), message.to_owned());
            proof {
                assert(first_overlap(ms, i as int));
                assert(!neighbours_free(ms));
                if !same_len {
                    assert(ms[i as int].hotkey.len() != ms[i + 1].hotkey.len());
                }
                assert(perr_matches(err, o.source, overlap_error(ms, i as int)));
            }
            return Err(err);
        }
        i += 1;
    }
    Ok(())
}

/// Parses the lexemes of `source` into shortcuts sorted by hotkey, and checks
/// that no hotkey starts another.
pub fn parse<'filestr>(source: &'filestr str, input: &LexemeLists<'filestr>) -> (r: Result<ShortcutOwner<'filestr>, MarkupError>)
    requires
        input.wf(source),
    ensures
        match parse_spec(input.entries@, input.heads@, input.bodys@, input.entries@.len() as int) {
            Ok(ms) => if prefix_free(ms) {
                r matches Ok(o) && o.wf() && o.spans_ok() && o.source == source && stably_sorted_from(o.models(), ms)
                    && stores(o, ms)
            } else {
                r matches Err(err) && overlap_reported(err, source, ms)
            },
            Err(e) => r matches Err(err) && perr_matches(err, source, e),
        },
{
    let mut owner = parse_main(source, input)?;
    let ghost unsorted = owner;
    owner.sort();
    proof {
        lemma_models_permute(unsorted, owner);
        lemma_prefix_free_permutes(owner.models(), unsorted.models());
        lemma_neighbours_suffice(owner.models());
    }
    match verify_no_overlap(&owner) {
        Ok(()) => {},
        Err(err) => {
            proof {
                let i = choose|i: int| #[trigger] first_overlap(owner.models(), i)
                    && perr_matches(err, owner.source, overlap_error(owner.models(), i));
                assert(first_overlap(owner.models(), i));
                assert(overlap_reported(err, source, unsorted.models()));
            }
            return Err(err);
        },
    }
    Ok(owner)
}

/// As `parse`, but the shortcuts keep the order of the file.
pub fn parse_unsorted<'filestr>(source: &'filestr str, input: &LexemeLists<'filestr>) -> (r: Result<ShortcutOwner<'filestr>, MarkupError>)
    requires
        input.wf(source),
    ensures
        match parse_spec(input.entries@, input.heads@, input.bodys@, input.entries@.len() as int) {
            Ok(ms) => if prefix_free(ms) {
                r matches Ok(o) && o.wf() && o.spans_ok() && o.laid_out() && o.source == source && o.models() == ms
            } else {
                r matches Err(err) && overlap_reported(err, source, ms)
            },
            Err(e) => r matches Err(err) && perr_matches(err, source, e),
        },
{
    let mut owner = parse_main(source, input)?;
    let file_order = owner.shortcuts.clone();
    let ghost unsorted = owner;
    owner.sort();
    proof {
        lemma_models_permute(unsorted, owner);
        lemma_prefix_free_permutes(owner.models(), unsorted.models());
        lemma_neighbours_suffice(owner.models());
    }
    match verify_no_overlap(&owner) {
        Ok(()) => {},
        Err(err) => {
            proof {
                let i = choose|i: int| #[trigger] first_overlap(owner.models(), i)
                    && perr_matches(err, owner.source, overlap_error(owner.models(), i));
                assert(first_overlap(owner.models(), i));
                assert(overlap_reported(err, source, unsorted.models()));
            }
            return Err(err);
        },
    }
    let result = ShortcutOwner { source: owner.source, chords: owner.chords, scripts: owner.scripts, shortcuts: file_order };
    proof {
        assert(result.shortcuts@ == unsorted.shortcuts@);
        assert(result.models() =~= unsorted.models());
    }
    Ok(result)
}

/// Lexes and parses `input`; the shortcuts keep the order of the file.
pub fn parse_to_shortcuts(input: &str) -> (r: Result<ShortcutOwner, MarkupError>)
    ensures
        match lex_spec(input) {
            Err(e) => r matches Err(err) && lex_error_reported(err, input@, e),
            Ok(m) => match parse_spec(m.entries, m.heads, m.bodys, m.entries.len() as int) {
                Ok(ms) => if prefix_free(ms) {
                    r matches Ok(o) && o.wf() && o.spans_ok() && o.laid_out() && o.source == input && o.models() == ms
                } else {
                    r matches Err(err) && overlap_reported(err, input, ms)
                },
                Err(e) => r matches Err(err) && perr_matches(err, input, e),
            },
        },
{
    let lexemes = crate::lexer::process(input)?;
    parse_unsorted(input, &lexemes)
}

} // verus!
