//! Text forms of chords, hotkeys and commands, and the pieces they are built
//! from: joining, escaping and trimming.

use vstd::prelude::*;
use vstd::string::StrSliceExecFns;

use crate::constants::{KEYCODES, MODIFIERS, WHITESPACE};
use crate::keyspaces::{owner_views, shortcut_view, shortcut_views, Action, KeyspaceOwner, ShortcutView};
use crate::lexer::span_ok;
use crate::reporter::{decimal, padded};
use crate::parser::ShortcutOwner;
use crate::structs::{Chord, Shortcut, WithSpan};
use crate::text::{concat, join, push_char, push_str};

verus! {

/****************************************************************************
 * Print trait
 ****************************************************************************/

/// A value with a text form, written into a buffer.
pub trait Print {
    /// The text form.
    spec fn printed(&self) -> Seq<char>;

    /// What the value must satisfy to be written.
    spec fn printable(&self) -> bool;

    /// Appends the text form to `buffer`.
    fn push_string_into(&self, buffer: &mut String)
        requires
            self.printable(),
        ensures
            final(buffer)@ == old(buffer)@ + self.printed();

    /// The text form as a new string.
    fn to_string_custom(&self) -> (s: String)
        requires
            self.printable(),
        ensures
            s@ == self.printed(),
    {
        let mut s = String::new();
        self.push_string_into(&mut s);
        s
    }

    /// The length of the text form, in characters.
    fn string_len(&self) -> (n: usize)
        requires
            self.printable(),
        ensures
            n == self.printed().len(),
    {
        let s = self.to_string_custom();
        s.as_str().unicode_len()
    }
}

/****************************************************************************
 * Chords
 ****************************************************************************/

/// The names of the modifiers set in `mods`, among the first `n` of `names`.
pub open spec fn mod_names(mods: u8, names: Seq<&str>, n: int) -> Seq<Seq<char>>
    decreases n,
{
    if n <= 0 {
        Seq::empty()
    } else {
        let rest = mod_names(mods, names, n - 1);
        if n - 1 < 8 && mods & (1u8 << (n - 1) as u8) != 0 { rest.push(names[n - 1]@) } else { rest }
    }
}

/// A chord as text: the names of its modifiers, then that of its key (if it
/// has one), with `delim` between neighbours.
pub open spec fn chord_text(delim: Seq<char>, chord: Chord, keycodes: Seq<&str>, modifiers: Seq<&str>) -> Seq<char> {
    let mods = mod_names(chord.modifiers, modifiers, modifiers.len() as int);
    join(if chord.key < keycodes.len() { mods.push(keycodes[chord.key as int]@) } else { mods }, delim)
}

/// A chord written with the given names for its keys and modifiers.
pub struct DeserialisedChord<'list, 'filestr>(
    pub &'static str,
    pub &'list Chord<'filestr>,
    pub &'static [&'static str],
    pub &'static [&'static str],
);

proof fn lemma_join_push(list: Seq<Seq<char>>, x: Seq<char>, sep: Seq<char>)
    ensures
        join(list.push(x), sep) == if list.len() == 0 { x } else { join(list, sep) + sep + x },
{
    assert(list.push(x).drop_last() =~= list);
    if list.len() == 0 {
        assert(list.push(x).len() == 1);
    }
}

impl<'list, 'filestr> Print for DeserialisedChord<'list, 'filestr> {
    open spec fn printed(&self) -> Seq<char> {
        chord_text(self.0@, *self.1, self.2@, self.3@)
    }

    open spec fn printable(&self) -> bool {
        self.3@.len() <= 8
    }

    fn push_string_into(&self, buffer: &mut String) {
        let DeserialisedChord(delim, chord, keycodes, modifiers) = *self;
        let ghost start = buffer@;
        let mut first = true;
        let mut i: usize = 0;
        while i < modifiers.len()
            invariant
                i <= modifiers@.len() <= 8,
                first == (mod_names(chord.modifiers, modifiers@, i as int).len() == 0),
                buffer@ == start + join(mod_names(chord.modifiers, modifiers@, i as int), delim@),
            decreases modifiers@.len() - i,
        {
            let ghost names = mod_names(chord.modifiers, modifiers@, i as int);
            if chord.modifiers & (1u8 << i as u8) != 0 {
                if !first {
                    push_str(buffer, delim);
                }
                push_str(buffer, modifiers[i]);
                first = false;
                proof {
                    lemma_join_push(names, modifiers@[i as int]@, delim@);
                }
            }
            i += 1;
        }
        let ghost mods = mod_names(chord.modifiers, modifiers@, modifiers@.len() as int);
        if chord.key < keycodes.len() {
            if !first {
                push_str(buffer, delim);
            }
            push_str(buffer, keycodes[chord.key]);
            proof {
                lemma_join_push(mods, keycodes@[chord.key as int]@, delim@);
            }
        }
    }
}

/// A chord written as the shortcut lists write it: names joined by spaces.
pub fn default_print_chord<'a, 'b>(chord: &'a Chord<'b>) -> (d: DeserialisedChord<'a, 'b>)
    ensures
        d.0@ == " "@,
        d.1 == chord,
        d.2@ == KEYCODES@,
        d.3@ == MODIFIERS@,
        d.printable(),
{
    DeserialisedChord(" ", chord, &KEYCODES, &MODIFIERS)
}

/****************************************************************************
 * Splitting at delimiters
 ****************************************************************************/

/// The pieces of `s[start..]` between the characters of `ds`, each with the
/// delimiter before it (`prev` for the first), when `s[start..j]` holds no
/// delimiter.
pub open spec fn pieces_scan(s: Seq<char>, ds: Seq<char>, start: int, j: int, prev: Seq<char>) -> Seq<(Seq<char>, Seq<char>)>
    decreases s.len() - j,
{
    if j >= s.len() {
        seq![(prev, s.subrange(start, s.len() as int))]
    } else if ds.contains(s[j]) {
        seq![(prev, s.subrange(start, j))] + pieces_scan(s, ds, j + 1, j + 1, seq![s[j]])
    } else {
        pieces_scan(s, ds, start, j + 1, prev)
    }
}

/// The pieces of `s` between the characters of `ds`, each with the delimiter
/// before it (nothing before the first).
pub open spec fn pieces(s: Seq<char>, ds: Seq<char>) -> Seq<(Seq<char>, Seq<char>)> {
    pieces_scan(s, ds, 0, 0, Seq::empty())
}

/// Each piece's delimiter, then its text, one after another.
pub open spec fn rejoined(ps: Seq<(Seq<char>, Seq<char>)>) -> Seq<char>
    decreases ps.len(),
{
    if ps.len() == 0 {
        Seq::empty()
    } else {
        ps[0].0 + ps[0].1 + rejoined(ps.drop_first())
    }
}

/// Splits a text at any of some characters, giving each piece with the
/// delimiter before it, as `str::split` does, but keeping the delimiters.
pub struct DelimSplit<'a, 'b> {
    pub source: &'a str,
    pub chars: Vec<char>,
    pub delim: &'b [char],
    pub peek_delim: Option<&'a str>,
    pub cursor: usize,
}

/// Whether `c` is one of `list`.
fn contains_char(list: &[char], c: char) -> (found: bool)
    ensures
        found == list@.contains(c),
{
    let mut i: usize = 0;
    while i < list.len()
        invariant
            i <= list@.len(),
            forall|k: int| 0 <= k < i ==> list@[k] != c,
        decreases list@.len() - i,
    {
        if list[i] == c {
            return true;
        }
        i += 1;
    }
    false
}

impl<'a, 'b> DelimSplit<'a, 'b> {
    pub open spec fn wf(&self) -> bool {
        &&& self.chars@ == self.source@
        &&& self.cursor <= self.chars@.len()
        &&& self.peek_delim matches Some(d) ==> d@.len() == 0 || (d@.len() == 1 && self.delim@.contains(d@[0]))
    }

    /// The pieces still to come.
    pub open spec fn rest(&self) -> Seq<(Seq<char>, Seq<char>)> {
        match self.peek_delim {
            None => Seq::empty(),
            Some(d) => pieces_scan(self.source@, self.delim@, self.cursor as int, self.cursor as int, d@),
        }
    }

    /// Starts splitting `substr` at the characters of `delim`.
    pub fn new(substr: &'a str, delim: &'b [char]) -> (split: Self)
        ensures
            split.wf(),
            split.source == substr,
            split.delim == delim,
            split.rest() == pieces(substr@, delim@),
    {
        let empty = substr.substring_char(0, 0);
        assert(empty@ =~= Seq::<char>::empty());
        DelimSplit { source: substr, chars: crate::text::to_chars(substr), delim, peek_delim: Some(empty), cursor: 0 }
    }

    /// The next piece with the delimiter before it, or `None` after the last.
    pub fn next(&mut self) -> (item: Option<(&'a str, &'a str)>)
        requires
            old(self).wf(),
        ensures
            final(self).wf(),
            final(self).source == old(self).source,
            final(self).delim == old(self).delim,
            final(self).peek_delim matches Some(d) ==> d@.len() == 1,
            old(self).peek_delim is None <==> old(self).rest().len() == 0,
            old(self).rest().len() == 0 ==> item is None && final(self).rest().len() == 0,
            old(self).rest().len() > 0 ==> (item matches Some(x) && (x.0@, x.1@) == old(self).rest()[0]
                && final(self).rest() == old(self).rest().drop_first()),
    {
        match self.peek_delim {
            None => None,
            Some(prev) => {
                let ghost s = self.source@;
                let ghost ds = self.delim@;
                let start = self.cursor;
                let n = self.chars.len();
                let mut j = start;
                while j < n && !contains_char(self.delim, self.chars[j])
                    invariant
                        self.chars@ == s,
                        self.delim@ == ds,
                        n == s.len(),
                        start <= j <= n,
                        pieces_scan(s, ds, start as int, start as int, prev@) == pieces_scan(s, ds, start as int, j as int, prev@),
                    decreases n - j,
                {
                    j += 1;
                }
                proof {
                    lemma_pieces_nonempty(s, ds, start as int, start as int, prev@);
                }
                if j < n {
                    let section = self.source.substring_char(start, j);
                    let d = self.source.substring_char(j, j + 1);
                    self.cursor = j + 1;
                    self.peek_delim = Some(d);
                    proof {
                        assert(d@ =~= seq![s[j as int]]);
                    }
                    Some((prev, section))
                } else {
                    let section = self.source.substring_char(start, n);
                    self.cursor = n;
                    self.peek_delim = None;
                    Some((prev, section))
                }
            },
        }
    }
}

/// Rejoining the pieces gives back the text.
proof fn lemma_rejoin_scan(s: Seq<char>, ds: Seq<char>, start: int, j: int, prev: Seq<char>)
    requires
        0 <= start <= j <= s.len(),
    ensures
        rejoined(pieces_scan(s, ds, start, j, prev)) == prev + s.subrange(start, s.len() as int),
    decreases s.len() - j,
{
    if j >= s.len() {
        let ps = pieces_scan(s, ds, start, j, prev);
        assert(ps.drop_first() =~= Seq::<(Seq<char>, Seq<char>)>::empty());
        assert(rejoined(ps.drop_first()) == Seq::<char>::empty());
        assert(rejoined(ps) =~= prev + s.subrange(start, s.len() as int));
    } else if ds.contains(s[j]) {
        lemma_rejoin_scan(s, ds, j + 1, j + 1, seq![s[j]]);
        let ps = pieces_scan(s, ds, start, j, prev);
        assert(ps.drop_first() =~= pieces_scan(s, ds, j + 1, j + 1, seq![s[j]]));
        assert(prev + s.subrange(start, j) + (seq![s[j]] + s.subrange(j + 1, s.len() as int))
            =~= prev + s.subrange(start, s.len() as int));
    } else {
        lemma_rejoin_scan(s, ds, start, j + 1, prev);
    }
}

/// Writing each piece after its delimiter gives back the text that was split.
pub proof fn lemma_pieces_rejoin(s: Seq<char>, ds: Seq<char>)
    ensures
        rejoined(pieces(s, ds)) == s,
{
    lemma_rejoin_scan(s, ds, 0, 0, Seq::empty());
    assert(Seq::<char>::empty() + s.subrange(0, s.len() as int) =~= s);
}

proof fn lemma_scan_shape(s: Seq<char>, ds: Seq<char>, start: int, j: int, prev: Seq<char>)
    requires
        0 <= start <= j <= s.len(),
        forall|x: int| start <= x < j ==> !ds.contains(#[trigger] s[x]),
    ensures
        ({
            let ps = pieces_scan(s, ds, start, j, prev);
            &&& ps.len() > 0
            &&& ps[0].0 == prev
            &&& forall|k: int| 0 < k < ps.len() ==> (#[trigger] ps[k]).0.len() == 1 && ds.contains(ps[k].0[0])
            &&& forall|k: int, x: int| 0 <= k < ps.len() && 0 <= x < ps[k].1.len() ==> !ds.contains(#[trigger] ps[k].1[x])
        }),
    decreases s.len() - j,
{
    let ps = pieces_scan(s, ds, start, j, prev);
    if j >= s.len() {
        assert forall|k: int, x: int| 0 <= k < ps.len() && 0 <= x < ps[k].1.len() implies !ds.contains(#[trigger] ps[k].1[x]) by {
            assert(ps[k].1[x] == s[start + x]);
        }
    } else if ds.contains(s[j]) {
        lemma_scan_shape(s, ds, j + 1, j + 1, seq![s[j]]);
        let rest = pieces_scan(s, ds, j + 1, j + 1, seq![s[j]]);
        assert(ps == seq![(prev, s.subrange(start, j))] + rest);
        assert forall|k: int| 0 < k < ps.len() implies (#[trigger] ps[k]).0.len() == 1 && ds.contains(ps[k].0[0]) by {
            assert(ps[k] == rest[k - 1]);
        }
        assert forall|k: int, x: int| 0 <= k < ps.len() && 0 <= x < ps[k].1.len() implies !ds.contains(#[trigger] ps[k].1[x]) by {
            if k == 0 {
                assert(ps[k].1[x] == s[start + x]);
            } else {
                assert(ps[k] == rest[k - 1]);
            }
        }
    } else {
        lemma_scan_shape(s, ds, start, j + 1, prev);
    }
}

/// The pieces are those that `str::split` gives at the characters of `ds`,
/// each after the delimiter that precedes it: the first comes after nothing,
/// every later one after a single delimiter, no piece's text holds a
/// delimiter, and written one after another they give back the text.
pub proof fn lemma_pieces_split(s: Seq<char>, ds: Seq<char>)
    ensures
        pieces(s, ds).len() > 0,
        pieces(s, ds)[0].0 == Seq::<char>::empty(),
        forall|k: int| 0 < k < pieces(s, ds).len() ==> (#[trigger] pieces(s, ds)[k]).0.len() == 1 && ds.contains(pieces(s, ds)[k].0[0]),
        forall|k: int, x: int| 0 <= k < pieces(s, ds).len() && 0 <= x < pieces(s, ds)[k].1.len()
            ==> !ds.contains(#[trigger] pieces(s, ds)[k].1[x]),
        rejoined(pieces(s, ds)) == s,
{
    lemma_scan_shape(s, ds, 0, 0, Seq::empty());
    lemma_pieces_rejoin(s, ds);
}

proof fn lemma_pieces_nonempty(s: Seq<char>, ds: Seq<char>, start: int, j: int, prev: Seq<char>)
    ensures
        pieces_scan(s, ds, start, j, prev).len() > 0,
        pieces_scan(s, ds, start, j, prev)[0].0 == prev,
    decreases s.len() - j,
{
    if j < s.len() && !ds.contains(s[j]) {
        lemma_pieces_nonempty(s, ds, start, j + 1, prev);
    }
}

/****************************************************************************
 * Escaping
 ****************************************************************************/

/// The index of the first `c` in `cands`.
pub open spec fn first_index(cands: Seq<char>, c: char) -> int
    decreases cands.len(),
{
    if cands.len() == 0 || cands[0] == c {
        0
    } else {
        1 + first_index(cands.drop_first(), c)
    }
}

/// `c` escaped: the escape of the first candidate it equals, or itself.
pub open spec fn esc_char(c: char, cands: Seq<char>, escs: Seq<&str>) -> Seq<char> {
    if cands.contains(c) { escs[first_index(cands, c)]@ } else { seq![c] }
}

/// `s` with each character escaped.
pub open spec fn escape_chars(s: Seq<char>, cands: Seq<char>, escs: Seq<&str>) -> Seq<char>
    decreases s.len(),
{
    if s.len() == 0 {
        Seq::empty()
    } else {
        escape_chars(s.drop_last(), cands, escs) + esc_char(s.last(), cands, escs)
    }
}

/// The escape of a piece's delimiter (nothing for none).
pub open spec fn emit(prev: Seq<char>, cands: Seq<char>, escs: Seq<&str>) -> Seq<char> {
    if prev.len() == 0 { Seq::empty() } else { esc_char(prev[0], cands, escs) }
}

/// Each piece after the escape of its delimiter.
pub open spec fn escaped_pieces(ps: Seq<(Seq<char>, Seq<char>)>, cands: Seq<char>, escs: Seq<&str>) -> Seq<char>
    decreases ps.len(),
{
    if ps.len() == 0 {
        Seq::empty()
    } else {
        emit(ps[0].0, cands, escs) + ps[0].1 + escaped_pieces(ps.drop_first(), cands, escs)
    }
}

proof fn lemma_escape_concat(a: Seq<char>, b: Seq<char>, cands: Seq<char>, escs: Seq<&str>)
    ensures
        escape_chars(a + b, cands, escs) == escape_chars(a, cands, escs) + escape_chars(b, cands, escs),
    decreases b.len(),
{
    if b.len() == 0 {
        assert(a + b =~= a);
        assert(escape_chars(a, cands, escs) + Seq::<char>::empty() =~= escape_chars(a, cands, escs));
    } else {
        lemma_escape_concat(a, b.drop_last(), cands, escs);
        assert((a + b).drop_last() =~= a + b.drop_last());
        assert((a + b).last() == b.last());
    }
}

proof fn lemma_escape_plain(s: Seq<char>, cands: Seq<char>, escs: Seq<&str>)
    requires
        forall|i: int| 0 <= i < s.len() ==> !cands.contains(#[trigger] s[i]),
    ensures
        escape_chars(s, cands, escs) == s,
    decreases s.len(),
{
    if s.len() > 0 {
        lemma_escape_plain(s.drop_last(), cands, escs);
        assert(s.drop_last().push(s.last()) =~= s);
    }
}

proof fn lemma_escaped_scan(s: Seq<char>, ds: Seq<char>, escs: Seq<&str>, start: int, j: int, prev: Seq<char>)
    requires
        0 <= start <= j <= s.len(),
        forall|i: int| start <= i < j ==> !ds.contains(#[trigger] s[i]),
    ensures
        escaped_pieces(pieces_scan(s, ds, start, j, prev), ds, escs) == emit(prev, ds, escs) + escape_chars(s.subrange(start, s.len() as int), ds, escs),
    decreases s.len() - j,
{
    let ps = pieces_scan(s, ds, start, j, prev);
    if j >= s.len() {
        assert(ps.drop_first() =~= Seq::<(Seq<char>, Seq<char>)>::empty());
        assert(escaped_pieces(ps.drop_first(), ds, escs) == Seq::<char>::empty());
        lemma_escape_plain(s.subrange(start, s.len() as int), ds, escs);
        assert(escaped_pieces(ps, ds, escs) =~= emit(prev, ds, escs) + s.subrange(start, s.len() as int));
    } else if ds.contains(s[j]) {
        lemma_escaped_scan(s, ds, escs, j + 1, j + 1, seq![s[j]]);
        assert(ps.drop_first() =~= pieces_scan(s, ds, j + 1, j + 1, seq![s[j]]));
        lemma_escape_plain(s.subrange(start, j), ds, escs);
        let head = s.subrange(start, j);
        let tail = s.subrange(j + 1, s.len() as int);
        lemma_escape_concat(head, seq![s[j]], ds, escs);
        lemma_escape_concat(head + seq![s[j]], tail, ds, escs);
        assert(head + seq![s[j]] + tail =~= s.subrange(start, s.len() as int));
        assert(escape_chars(seq![s[j]], ds, escs) == esc_char(s[j], ds, escs)) by {
            assert(seq![s[j]].drop_last() =~= Seq::<char>::empty());
            assert(escape_chars(Seq::<char>::empty(), ds, escs) == Seq::<char>::empty());
            assert(Seq::<char>::empty() + esc_char(s[j], ds, escs) =~= esc_char(s[j], ds, escs));
        }
        assert(emit(seq![s[j]], ds, escs) == esc_char(s[j], ds, escs));
        assert(escaped_pieces(ps, ds, escs) =~= emit(prev, ds, escs) + escape_chars(s.subrange(start, s.len() as int), ds, escs));
    } else {
        lemma_escaped_scan(s, ds, escs, start, j + 1, prev);
    }
}

/// The index of the first `c` in `cands`.
fn position(cands: &[char], c: char) -> (i: usize)
    requires
        cands@.contains(c),
    ensures
        i == first_index(cands@, c),
        i < cands@.len(),
{
    let mut i: usize = 0;
    assert(cands@.skip(0) =~= cands@);
    while cands[i] != c
        invariant
            i < cands@.len(),
            cands@.contains(c),
            forall|k: int| 0 <= k < i ==> cands@[k] != c,
            first_index(cands@, c) == i + first_index(cands@.skip(i as int), c),
        decreases cands@.len() - i,
    {
        assert(cands@.skip(i as int).drop_first() =~= cands@.skip(i + 1));
        proof {
            if i + 1 >= cands@.len() {
                let k = choose|k: int| 0 <= k < cands@.len() && cands@[k] == c;
                assert(false);
            }
        }
        i += 1;
    }
    i
}

/// A text with each of some characters replaced by its escape.
pub struct EscapedStr<'a>(pub &'static [char], pub &'static [&'static str], pub &'a str);

impl<'a> Print for EscapedStr<'a> {
    open spec fn printed(&self) -> Seq<char> {
        escape_chars(self.2@, self.0@, self.1@)
    }

    open spec fn printable(&self) -> bool {
        self.0@.len() == self.1@.len()
    }

    fn push_string_into(&self, buffer: &mut String) {
        let EscapedStr(candidates, escape, text) = *self;
        let ghost start = buffer@;
        let ghost s = text@;
        let ghost ds = candidates@;
        let mut iter = DelimSplit::new(text, candidates);
        proof {
            lemma_escaped_scan(s, ds, escape@, 0, 0, Seq::empty());
            assert(s.subrange(0, s.len() as int) =~= s);
            lemma_pieces_nonempty(s, ds, 0, 0, Seq::empty());
        }
        let ghost all = iter.rest();
        let first = iter.next();
        match first {
            Some((_, section)) => {
                push_str(buffer, section);
            },
            None => {},
        }
        proof {
            assert(escaped_pieces(all, ds, escape@) == emit(all[0].0, ds, escape@) + all[0].1 + escaped_pieces(all.drop_first(), ds, escape@));
            assert(emit(all[0].0, ds, escape@) =~= Seq::<char>::empty());
        }
        while iter.peek_delim.is_some()
            invariant
                iter.wf(),
                iter.source == text,
                iter.delim == candidates,
                s == text@,
                ds == candidates@,
                candidates@.len() == escape@.len(),
                iter.peek_delim matches Some(d) ==> d@.len() == 1,
                buffer@ + escaped_pieces(iter.rest(), ds, escape@) == start + escape_chars(s, ds, escape@),
            decreases iter.rest().len(),
        {
            let ghost rest = iter.rest();
            let ghost pd = iter.peek_delim->0@;
            proof {
                lemma_pieces_nonempty(s, ds, iter.cursor as int, iter.cursor as int, pd);
                assert(pd.len() == 1 && ds.contains(pd[0]));
            }
            let item = iter.next();
            match item {
                Some((d, section)) => {
                    assert(d@ == rest[0].0);
                    assert(d@ == pd);
                    let c = d.get_char(0);
                    let index = position(candidates, c);
                    let ghost before = buffer@;
                    push_str(buffer, escape[index]);
                    push_str(buffer, section);
                    proof {
                        assert(emit(d@, ds, escape@) == escape@[index as int]@);
                        assert(buffer@ + escaped_pieces(iter.rest(), ds, escape@)
                            =~= before + escaped_pieces(rest, ds, escape@));
                    }
                },
                None => {},
            }
        }
        proof {
            assert(escaped_pieces(iter.rest(), ds, escape@) == Seq::<char>::empty());
            assert(buffer@ + Seq::<char>::empty() =~= buffer@);
        }
    }
}

/****************************************************************************
 * Lists of sections
 ****************************************************************************/

/// The texts of the spans.
pub open spec fn span_texts(list: Seq<WithSpan<()>>) -> Seq<Seq<char>> {
    list.map_values(|w: WithSpan<()>| w.text())
}

/// The texts `texts[a..b]`, each escaped, one after another.
pub open spec fn escaped_texts(texts: Seq<Seq<char>>, a: int, b: int, cands: Seq<char>, escs: Seq<&str>) -> Seq<char>
    decreases b - a,
{
    if b <= a {
        Seq::empty()
    } else {
        escaped_texts(texts, a, b - 1, cands, escs) + escape_chars(texts[b - 1], cands, escs)
    }
}

/// Appends `list[a..b]`, each escaped.
fn push_escaped_range(buffer: &mut String, candidates: &'static [char], escape: &'static [&'static str], list: &[WithSpan<()>], a: usize, b: usize)
    requires
        a <= b <= list@.len(),
        candidates@.len() == escape@.len(),
        forall|k: int| 0 <= k < list@.len() ==> (#[trigger] list@[k]).wf(),
    ensures
        final(buffer)@ == old(buffer)@ + escaped_texts(span_texts(list@), a as int, b as int, candidates@, escape@),
{
    let ghost start = buffer@;
    let mut k = a;
    while k < b
        invariant
            a <= k <= b <= list@.len(),
            candidates@.len() == escape@.len(),
            forall|x: int| 0 <= x < list@.len() ==> (#[trigger] list@[x]).wf(),
            buffer@ == start + escaped_texts(span_texts(list@), a as int, k as int, candidates@, escape@),
        decreases b - k,
    {
        let text = list[k].as_str();
        assert(list@[k as int].wf());
        EscapedStr(candidates, escape, text).push_string_into(buffer);
        proof {
            assert(span_texts(list@)[k as int] == text@);
        }
        k += 1;
    }
}

/// Sections of text written one after another between quotes, each escaped.
pub struct EscapedStrList<'list, 'filestr>(
    pub char,
    pub &'static [char],
    pub &'static [&'static str],
    pub &'list [WithSpan<'filestr, ()>],
);

impl<'list, 'filestr> Print for EscapedStrList<'list, 'filestr> {
    open spec fn printed(&self) -> Seq<char> {
        seq![self.0] + escaped_texts(span_texts(self.3@), 0, self.3@.len() as int, self.1@, self.2@) + seq![self.0]
    }

    open spec fn printable(&self) -> bool {
        &&& self.1@.len() == self.2@.len()
        &&& forall|k: int| 0 <= k < self.3@.len() ==> (#[trigger] self.3@[k]).wf()
    }

    fn push_string_into(&self, buffer: &mut String) {
        let EscapedStrList(quote, candidates, escape, list) = *self;
        let ghost start = buffer@;
        push_char(buffer, quote);
        push_escaped_range(buffer, candidates, escape, list, 0, list.len());
        push_char(buffer, quote);
        assert(buffer@ =~= start + self.printed());
    }
}

/****************************************************************************
 * Trimming
 ****************************************************************************/

pub open spec fn is_ws(c: char) -> bool {
    WHITESPACE@.contains(c)
}

/// `s` without its leading whitespace.
pub open spec fn trim_start(s: Seq<char>) -> Seq<char>
    decreases s.len(),
{
    if s.len() > 0 && is_ws(s[0]) { trim_start(s.drop_first()) } else { s }
}

/// `s` without its trailing whitespace.
pub open spec fn trim_end(s: Seq<char>) -> Seq<char>
    decreases s.len(),
{
    if s.len() > 0 && is_ws(s.last()) { trim_end(s.drop_last()) } else { s }
}

/// `s` without its leading and trailing whitespace.
pub open spec fn trim(s: Seq<char>) -> Seq<char> {
    trim_end(trim_start(s))
}

/// `s` holds only whitespace.
pub open spec fn blank(s: Seq<char>) -> bool {
    trim_start(s).len() == 0
}

fn is_whitespace(c: char) -> (ws: bool)
    ensures
        ws == is_ws(c),
{
    contains_char(&WHITESPACE, c)
}

/// `s` without its leading whitespace.
fn trim_start_str(s: &str) -> (t: &str)
    ensures
        t@ == trim_start(s@),
{
    let chars = crate::text::to_chars(s);
    let n = chars.len();
    let mut i: usize = 0;
    assert(s@.skip(0) =~= s@);
    while i < n && is_whitespace(chars[i])
        invariant
            chars@ == s@,
            n == s@.len(),
            i <= n,
            trim_start(s@) == trim_start(s@.skip(i as int)),
        decreases n - i,
    {
        assert(s@.skip(i as int).drop_first() =~= s@.skip(i + 1));
        i += 1;
    }
    assert(s@.skip(i as int) =~= s@.subrange(i as int, n as int));
    s.substring_char(i, n)
}

/// `s` without its trailing whitespace.
fn trim_end_str(s: &str) -> (t: &str)
    ensures
        t@ == trim_end(s@),
{
    let chars = crate::text::to_chars(s);
    let n = chars.len();
    let mut i: usize = n;
    assert(s@.take(n as int) =~= s@);
    while i > 0 && is_whitespace(chars[i - 1])
        invariant
            chars@ == s@,
            n == s@.len(),
            i <= n,
            trim_end(s@) == trim_end(s@.take(i as int)),
        decreases i,
    {
        assert(s@.take(i as int).drop_last() =~= s@.take(i - 1));
        i -= 1;
    }
    s.substring_char(0, i)
}

/// Whether `s` holds only whitespace.
fn is_blank(s: &str) -> (b: bool)
    ensures
        b == blank(s@),
{
    trim_start_str(s).unicode_len() == 0
}

/// `s` without its leading and trailing whitespace.
fn trim_str(s: &str) -> (t: &str)
    ensures
        t@ == trim(s@),
{
    trim_end_str(trim_start_str(s))
}

/// The first index from `i` of a text that is not blank.
pub open spec fn first_nonblank(texts: Seq<Seq<char>>, i: int) -> Option<int>
    decreases texts.len() - i,
{
    if i >= texts.len() {
        None
    } else if !blank(texts[i]) {
        Some(i)
    } else {
        first_nonblank(texts, i + 1)
    }
}

/// The last index before `i` of a text that is not blank.
pub open spec fn last_nonblank(texts: Seq<Seq<char>>, i: int) -> Option<int>
    decreases i,
{
    if i <= 0 {
        None
    } else if !blank(texts[i - 1]) {
        Some(i - 1)
    } else {
        last_nonblank(texts, i - 1)
    }
}

/// Where the non-blank texts begin: the first that is not blank (else the last).
pub open spec fn trim_begin(texts: Seq<Seq<char>>) -> int {
    match first_nonblank(texts, 0) {
        Some(i) => i,
        None => if texts.len() == 0 { 0 } else { texts.len() - 1 },
    }
}

/// Where the non-blank texts close: the last that is not blank (else the first).
pub open spec fn trim_close(texts: Seq<Seq<char>>) -> int {
    match last_nonblank(texts, texts.len() as int) {
        Some(i) => i,
        None => 0,
    }
}

pub open spec fn min(a: int, b: int) -> int {
    if a < b { a } else { b }
}

/// The sections as one text without leading or trailing whitespace, escaped,
/// between quotes. The blank sections at either end are left out, and the
/// first and last remaining ones are trimmed.
pub open spec fn trim_escaped(quote: char, texts: Seq<Seq<char>>, cands: Seq<char>, escs: Seq<&str>) -> Seq<char> {
    let begin = trim_begin(texts);
    let close = trim_close(texts);
    let end = min(texts.len() as int, close + 1);
    let tl = end - begin;
    let middle_len = if tl < 2 { 0 } else { tl - 2 };
    let first = if tl >= 1 {
        escape_chars(if tl < 2 { trim(texts[begin]) } else { trim_start(texts[begin]) }, cands, escs)
    } else {
        Seq::empty()
    };
    let finis = if begin != close { escape_chars(trim_end(texts[close]), cands, escs) } else { Seq::empty() };
    seq![quote] + first + escaped_texts(texts, begin + 1, begin + 1 + middle_len, cands, escs) + finis + seq![quote]
}

/// Where the non-blank sections begin and close (see `trim_begin`, `trim_close`).
fn trim_bounds(sections: &[WithSpan<()>]) -> (bounds: (usize, usize))
    requires
        forall|k: int| 0 <= k < sections@.len() ==> (#[trigger] sections@[k]).wf(),
    ensures
        bounds.0 == trim_begin(span_texts(sections@)),
        bounds.1 == trim_close(span_texts(sections@)),
        bounds.0 <= sections@.len(),
        sections@.len() > 0 ==> bounds.1 < sections@.len(),
        sections@.len() == 0 ==> bounds.1 == 0,
{
    let ghost texts = span_texts(sections@);
    let n = sections.len();
    // the first section that is not blank
    let mut b: usize = 0;
    while b < n && is_blank(sections[b].as_str())
        invariant
            b <= n == sections@.len(),
            texts == span_texts(sections@),
            forall|k: int| 0 <= k < sections@.len() ==> (#[trigger] sections@[k]).wf(),
            first_nonblank(texts, 0) == first_nonblank(texts, b as int),
        decreases n - b,
    {
        assert(sections@[b as int].wf());
        assert(texts[b as int] == sections@[b as int].text());
        b += 1;
    }
    let begin = if b < n { b } else if n == 0 { 0 } else { n - 1 };
    // the last section that is not blank
    let mut c: usize = n;
    while c > 0 && is_blank(sections[c - 1].as_str())
        invariant
            c <= n == sections@.len(),
            texts == span_texts(sections@),
            forall|k: int| 0 <= k < sections@.len() ==> (#[trigger] sections@[k]).wf(),
            last_nonblank(texts, n as int) == last_nonblank(texts, c as int),
        decreases c,
    {
        assert(sections@[c - 1].wf());
        assert(texts[c - 1] == sections@[c - 1].text());
        c -= 1;
    }
    let close = if c > 0 { c - 1 } else { 0 };
    proof {
        if b < n {
            assert(sections@[b as int].wf());
            assert(texts[b as int] == sections@[b as int].text());
        }
        if c > 0 {
            assert(sections@[c - 1].wf());
            assert(texts[c - 1] == sections@[c - 1].text());
        }
    }
    (begin, close)
}

/// Whether the sections can be trimmed (see `trim_ok`).
pub fn trimmable(list: &[WithSpan<()>]) -> (ok: bool)
    requires
        forall|k: int| 0 <= k < list@.len() ==> (#[trigger] list@[k]).wf(),
    ensures
        ok == trim_ok(span_texts(list@)),
{
    let (begin, close) = trim_bounds(list);
    let n = list.len();
    begin <= n && begin <= close + 1
}

/// Whether every command of the owner can be trimmed (see `owner_printable`).
pub fn commands_trimmable(owner: &ShortcutOwner) -> (ok: bool)
    requires
        owner.wf(),
        owner.spans_ok(),
    ensures
        ok == owner_printable(owner),
{
    let list = owner.to_iter();
    let ghost vs = owner_views(*owner);
    assert(shortcut_views(list@) =~= vs);
    let mut k: usize = 0;
    while k < list.len()
        invariant
            k <= list@.len(),
            list@.len() == owner.shortcuts@.len(),
            forall|x: int| 0 <= x < list@.len() ==> {
                let p = #[trigger] owner.shortcuts@[x];
                &&& list@[x].command@ == owner.scripts@.subrange(p.body_start as int, p.body_end as int)
            },
            owner.wf(),
            owner.spans_ok(),
            vs == owner_views(*owner),
            shortcut_views(list@) == vs,
            forall|x: int| 0 <= x < k ==> trim_ok(span_texts(#[trigger] vs[x].command)),
        decreases list@.len() - k,
    {
        assert(vs[k as int] == shortcut_view(list@[k as int]));
        proof {
            let p = owner.shortcuts@[k as int];
            assert(owner.pointer_ok(p));
            assert forall|x: int| 0 <= x < list@[k as int].command@.len() implies (#[trigger] list@[k as int].command@[x]).wf() by {
                assert(list@[k as int].command@[x] == owner.scripts@[p.body_start + x]);
                assert(span_ok(owner.source, owner.scripts@[p.body_start + x]));
            }
        }
        if !trimmable(list[k].command) {
            assert(!trim_ok(span_texts(vs[k as int].command)));
            return false;
        }
        k += 1;
    }
    true
}

/// Sections of text written between quotes as one trimmed text, each escaped.
pub struct TrimEscapeStrList<'list, 'filestr>(
    pub char,
    pub &'static [char],
    pub &'static [&'static str],
    pub &'list [WithSpan<'filestr, ()>],
);

impl<'list, 'filestr> Print for TrimEscapeStrList<'list, 'filestr> {
    open spec fn printed(&self) -> Seq<char> {
        trim_escaped(self.0, span_texts(self.3@), self.1@, self.2@)
    }

    /// Besides what escaping needs: when every section is blank there are
    /// at most two of them.
    open spec fn printable(&self) -> bool {
        &&& self.1@.len() == self.2@.len()
        &&& forall|k: int| 0 <= k < self.3@.len() ==> (#[trigger] self.3@[k]).wf()
        &&& trim_begin(span_texts(self.3@)) <= min(self.3@.len() as int, trim_close(span_texts(self.3@)) + 1)
    }

    fn push_string_into(&self, buffer: &mut String) {
        let TrimEscapeStrList(quote, candidates, escape, sections) = *self;
        let ghost texts = span_texts(sections@);
        let ghost start = buffer@;
        let n = sections.len();
        let (begin, close) = trim_bounds(sections);
        let end = if n < close + 1 { n } else { close + 1 };
        let trimmed_len = end - begin;
        let middle_len = if trimmed_len < 2 { 0 } else { trimmed_len - 2 };

        push_char(buffer, quote);
        let ghost after_quote = buffer@;
        if trimmed_len >= 1 {
            let s = sections[begin].as_str();
            assert(sections@[begin as int].wf());
            let first = if trimmed_len < 2 { trim_str(s) } else { trim_start_str(s) };
            EscapedStr(candidates, escape, first).push_string_into(buffer);
        }
        let ghost after_first = buffer@;
        if middle_len > 0 {
            push_escaped_range(buffer, candidates, escape, sections, begin + 1, begin + 1 + middle_len);
        }
        if begin != close {
            assert(sections@[close as int].wf());
            let finis = trim_end_str(sections[close].as_str());
            EscapedStr(candidates, escape, finis).push_string_into(buffer);
        }
        push_char(buffer, quote);
        proof {
            if trimmed_len >= 1 {
                assert(texts[begin as int] == sections@[begin as int].text());
            }
            if begin != close {
                assert(texts[close as int] == sections@[close as int].text());
            }
            assert(buffer@ =~= start + self.printed());
        }
    }
}

/****************************************************************************
 * Hotkeys and shortcut lines
 ****************************************************************************/

/// The chords written one after another with `sep` between them, each with
/// `delim` between its names.
pub open spec fn hotkey_text(chords: Seq<Chord>, sep: Seq<char>, delim: Seq<char>, keycodes: Seq<&str>, modifiers: Seq<&str>) -> Seq<char> {
    join(chords.map_values(|c: Chord| chord_text(delim, c, keycodes, modifiers)), sep)
}

/// Appends the chords of `hotkey` with `sep` between them.
fn push_hotkey(
    buffer: &mut String,
    hotkey: &[Chord],
    sep: &str,
    delim: &'static str,
    keycodes: &'static [&'static str],
    modifiers: &'static [&'static str],
)
    requires
        modifiers@.len() <= 8,
    ensures
        final(buffer)@ == old(buffer)@ + hotkey_text(hotkey@, sep@, delim@, keycodes@, modifiers@),
{
    let ghost start = buffer@;
    let ghost texts = hotkey@.map_values(|c: Chord| chord_text(delim@, c, keycodes@, modifiers@));
    let mut k: usize = 0;
    while k < hotkey.len()
        invariant
            k <= hotkey@.len(),
            modifiers@.len() <= 8,
            texts == hotkey@.map_values(|c: Chord| chord_text(delim@, c, keycodes@, modifiers@)),
            buffer@ == start + join(texts.take(k as int), sep@),
        decreases hotkey@.len() - k,
    {
        if k > 0 {
            push_str(buffer, sep);
        }
        DeserialisedChord(delim, &hotkey[k], keycodes, modifiers).push_string_into(buffer);
        proof {
            assert(texts.take(k + 1) =~= texts.take(k as int).push(texts[k as int]));
            lemma_join_push(texts.take(k as int), texts[k as int], sep@);
        }
        k += 1;
    }
    assert(texts.take(hotkey@.len() as int) =~= texts);
}

pub const NO_CHARS: [char; 0] = [];
pub const NO_ESCAPES: [&'static str; 0] = [];
pub const QUOTE_CANDIDATES: [char; 1] = ['\''];
pub const QUOTE_ESCAPES: [&'static str; 1] = ["'\\''"];

/// How a shortcut is written on a line of its own.
#[derive(Clone, Copy)]
pub enum LineStyle {
    /// A case of a shell `case` statement: the hotkey, then the command.
    Shell,
    /// A line of a listing: the hotkey between bars, then the command quoted.
    List,
}

/// The sections can be trimmed (see `TrimEscapeStrList`).
pub open spec fn trim_ok(texts: Seq<Seq<char>>) -> bool {
    trim_begin(texts) <= min(texts.len() as int, trim_close(texts) + 1)
}

pub open spec fn line_text(style: LineStyle, v: ShortcutView) -> Seq<char> {
    match style {
        LineStyle::Shell => "\""@ + hotkey_text(v.hotkey, " ; "@, " "@, KEYCODES@, MODIFIERS@) + "\")"@
            + trim_escaped(' ', span_texts(v.command), NO_CHARS@, NO_ESCAPES@) + "\n  ;; "@,
        LineStyle::List => "|"@ + hotkey_text(v.hotkey, " ; "@, " "@, KEYCODES@, MODIFIERS@) + "|"@
            + trim_escaped('\'', span_texts(v.command), QUOTE_CANDIDATES@, QUOTE_ESCAPES@) + "\n"@,
    }
}

/// The lines of the shortcuts of `vs` that are (or are not) placeholders.
pub open spec fn lines_text(style: LineStyle, vs: Seq<ShortcutView>, placeholders: bool) -> Seq<char>
    decreases vs.len(),
{
    if vs.len() == 0 {
        Seq::empty()
    } else {
        let rest = lines_text(style, vs.drop_last(), placeholders);
        if vs.last().is_placeholder == placeholders { rest + line_text(style, vs.last()) } else { rest }
    }
}

/// The shortcut's command can be written: its sections lie in their text
/// and can be trimmed.
pub open spec fn command_ok(v: ShortcutView) -> bool {
    &&& forall|k: int| 0 <= k < v.command.len() ==> (#[trigger] v.command[k]).wf()
    &&& trim_ok(span_texts(v.command))
}

/// Every shortcut of the owner can be written.
pub open spec fn owner_printable(o: &ShortcutOwner) -> bool {
    &&& o.wf()
    &&& o.spans_ok()
    &&& forall|k: int| 0 <= k < owner_views(*o).len() ==> trim_ok(span_texts(#[trigger] owner_views(*o)[k].command))
}

fn push_line(buffer: &mut String, style: LineStyle, s: &Shortcut)
    requires
        command_ok(shortcut_view(*s)),
    ensures
        final(buffer)@ == old(buffer)@ + line_text(style, shortcut_view(*s)),
{
    let ghost start = buffer@;
    match style {
        LineStyle::Shell => {
            push_str(buffer, "\"");
            push_hotkey(buffer, s.hotkey, " ; ", " ", &KEYCODES, &MODIFIERS);
            push_str(buffer, "\")");
            TrimEscapeStrList(' ', &NO_CHARS, &NO_ESCAPES, s.command).push_string_into(buffer);
            push_str(buffer, "\n  ;; ");
        },
        LineStyle::List => {
            push_str(buffer, "|");
            push_hotkey(buffer, s.hotkey, " ; ", " ", &KEYCODES, &MODIFIERS);
            push_str(buffer, "|");
            TrimEscapeStrList('\'', &QUOTE_CANDIDATES, &QUOTE_ESCAPES, s.command).push_string_into(buffer);
            push_str(buffer, "\n");
        },
    }
    assert(buffer@ =~= start + line_text(style, shortcut_view(*s)));
}

/// Appends the lines of the shortcuts of the owner that are (or are not) placeholders.
fn push_lines(buffer: &mut String, style: LineStyle, owner: &ShortcutOwner, placeholders: bool)
    requires
        owner_printable(owner),
    ensures
        final(buffer)@ == old(buffer)@ + lines_text(style, owner_views(*owner), placeholders),
{
    let ghost start = buffer@;
    let list = owner.to_iter();
    let ghost vs = owner_views(*owner);
    assert(shortcut_views(list@) =~= vs);
    let mut k: usize = 0;
    while k < list.len()
        invariant
            k <= list@.len(),
            list@.len() == owner.shortcuts@.len(),
            forall|x: int| 0 <= x < list@.len() ==> {
                let p = #[trigger] owner.shortcuts@[x];
                &&& list@[x].command@ == owner.scripts@.subrange(p.body_start as int, p.body_end as int)
            },
            owner_printable(owner),
            vs == owner_views(*owner),
            shortcut_views(list@) == vs,
            buffer@ == start + lines_text(style, vs.take(k as int), placeholders),
        decreases list@.len() - k,
    {
        assert(vs.take(k + 1).drop_last() =~= vs.take(k as int));
        assert(vs[k as int] == shortcut_view(list@[k as int]));
        if list[k].is_placeholder == placeholders {
            proof {
                let p = owner.shortcuts@[k as int];
                assert(owner.pointer_ok(p));
                assert(trim_ok(span_texts(vs[k as int].command)));
                assert forall|x: int| 0 <= x < list@[k as int].command@.len() implies (#[trigger] list@[k as int].command@[x]).wf() by {
                    assert(list@[k as int].command@[x] == owner.scripts@[p.body_start + x]);
                    assert(span_ok(owner.source, owner.scripts@[p.body_start + x]));
                }
            }
            push_line(buffer, style, &list[k]);
        }
        k += 1;
    }
    assert(vs.take(list@.len() as int) =~= vs);
}

/// The shell script that runs the command of a hotkey given as its argument.
pub struct Shellscript<'parsemes, 'filestr>(pub &'parsemes ShortcutOwner<'filestr>);

impl<'parsemes, 'filestr> Print for Shellscript<'parsemes, 'filestr> {
    open spec fn printed(&self) -> Seq<char> {
        "#!/bin/sh\n"@ + "case \"${1}\"\n"@ + "  in "@ + lines_text(LineStyle::Shell, owner_views(*self.0), false)
            + "*) notify.sh \"key combination ${1}\"; exit 1\n"@ + "esac\n"@
    }

    open spec fn printable(&self) -> bool {
        owner_printable(self.0)
    }

    fn push_string_into(&self, buffer: &mut String) {
        let ghost start = buffer@;
        push_str(buffer, "#!/bin/sh\n");
        push_str(buffer, "case \"${1}\"\n");
        push_str(buffer, "  in ");
        push_lines(buffer, LineStyle::Shell, self.0, false);
        push_str(buffer, "*) notify.sh \"key combination ${1}\"; exit 1\n");
        push_str(buffer, "esac\n");
        assert(buffer@ =~= start + self.printed());
    }
}

/// The shortcuts that are not placeholders, one per line.
pub struct ListPreview<'parsemes, 'filestr>(pub &'parsemes ShortcutOwner<'filestr>);

impl<'parsemes, 'filestr> Print for ListPreview<'parsemes, 'filestr> {
    open spec fn printed(&self) -> Seq<char> {
        lines_text(LineStyle::List, owner_views(*self.0), false)
    }

    open spec fn printable(&self) -> bool {
        owner_printable(self.0)
    }

    fn push_string_into(&self, buffer: &mut String) {
        push_lines(buffer, LineStyle::List, self.0, false);
    }
}

/// The placeholders, then the other shortcuts, one per line, under headings.
pub struct ListDebug<'parsemes, 'filestr>(pub &'parsemes ShortcutOwner<'filestr>);

impl<'parsemes, 'filestr> Print for ListDebug<'parsemes, 'filestr> {
    open spec fn printed(&self) -> Seq<char> {
        "Placeholders\n"@ + "==========\n"@ + lines_text(LineStyle::List, owner_views(*self.0), true) + "\n"@
            + "Real Shortcuts\n"@ + "==========\n"@ + lines_text(LineStyle::List, owner_views(*self.0), false)
    }

    open spec fn printable(&self) -> bool {
        owner_printable(self.0)
    }

    fn push_string_into(&self, buffer: &mut String) {
        let ghost start = buffer@;
        push_str(buffer, "Placeholders\n");
        push_str(buffer, "==========\n");
        push_lines(buffer, LineStyle::List, self.0, true);
        push_str(buffer, "\n");
        push_str(buffer, "Real Shortcuts\n");
        push_str(buffer, "==========\n");
        push_lines(buffer, LineStyle::List, self.0, false);
        assert(buffer@ =~= start + self.printed());
    }
}

/// A chord as a listing writes it: its names joined by spaces.
pub struct ListChord<'list, 'filestr>(pub &'list Chord<'filestr>);

impl<'list, 'filestr> Print for ListChord<'list, 'filestr> {
    open spec fn printed(&self) -> Seq<char> {
        chord_text(" "@, *self.0, KEYCODES@, MODIFIERS@)
    }

    open spec fn printable(&self) -> bool {
        true
    }

    fn push_string_into(&self, buffer: &mut String) {
        default_print_chord(self.0).push_string_into(buffer);
    }
}

/****************************************************************************
 * i3 configuration
 ****************************************************************************/

/// The names i3 gives the modifiers in key bindings.
pub const I3_MODIFIERS: [&'static str; 4] = ["Mod1", "Ctrl", "Shift", "Mod4"];
/// Short names of the modifiers for the titles of modes.
pub const I3_TITLE_MODIFIERS: [&'static str; 4] = ["A", "C", "S", "M"];

pub open spec fn i3_chord(c: Chord) -> Seq<char> {
    chord_text("+"@, c, KEYCODES@, I3_MODIFIERS@)
}

pub open spec fn i3_title(title: Seq<Chord>) -> Seq<char> {
    hotkey_text(title, ";"@, "+"@, KEYCODES@, I3_TITLE_MODIFIERS@)
}

/// An action as an i3 binding: its trigger switches to the mode of the
/// keyspace it leads to, or runs the command of its shortcut (through the
/// shell script, by hotkey) and returns to the default mode.
pub open spec fn i3_action(a: Action) -> Seq<char> {
    match a {
        Action::SetState(title) => "bindsym "@ + i3_chord(title@.last()) + " mode \""@ + i3_title(title@) + "\""@,
        Action::Command(trigger, s) => "bindsym "@ + i3_chord(trigger) + " exec --no-startup-id \""@ + "shortcuts.sh '"@
            + hotkey_text(s.hotkey@, " ; "@, " "@, KEYCODES@, MODIFIERS@) + "'\"; mode \"default\""@,
    }
}

/// The bindings of the actions, one per line after `padding`.
pub open spec fn i3_actions(acts: Seq<Action>, padding: Seq<char>) -> Seq<char>
    decreases acts.len(),
{
    if acts.len() == 0 {
        Seq::empty()
    } else {
        i3_actions(acts.drop_last(), padding) + padding + i3_action(acts.last()) + "\n"@
    }
}

/// A keyspace as an i3 mode.
pub open spec fn i3_keyspace(title: Seq<Chord>, acts: Seq<Action>) -> Seq<char> {
    "\nmode \""@ + i3_title(title) + "\" {\n"@ + i3_actions(acts, "  "@) + "  bindsym Escape mode \"default\"\n"@ + "}\n"@
}

pub open spec fn keyspace_actions<'p, 'f>(ko: &KeyspaceOwner<'p, 'f>, k: int) -> Seq<Action<'p, 'f>> {
    ko.all_actions@.subrange(ko.keyspaces@[k].action_start as int, ko.keyspaces@[k].action_end as int)
}

/// The keyspaces `1..to` as modes.
pub open spec fn i3_modes(ko: &KeyspaceOwner, to: int) -> Seq<char>
    decreases to,
{
    if to <= 1 {
        Seq::empty()
    } else {
        i3_modes(ko, to - 1) + i3_keyspace(ko.keyspaces@[to - 1].title@, keyspace_actions(ko, to - 1))
    }
}

proof fn lemma_i3_actions_same(a1: Seq<Action>, a2: Seq<Action>, padding: Seq<char>)
    requires
        a1.len() == a2.len(),
        forall|x: int| 0 <= x < a1.len() ==> crate::keyspaces::same_action((#[trigger] a1[x]).view(), a2[x].view()),
    ensures
        i3_actions(a1, padding) == i3_actions(a2, padding),
    decreases a1.len(),
{
    if a1.len() > 0 {
        lemma_i3_actions_same(a1.drop_last(), a2.drop_last(), padding);
        let x = a1.len() - 1;
        assert(crate::keyspaces::same_action(a1[x].view(), a2[x].view()));
        assert(i3_action(a1.last()) == i3_action(a2.last()));
    }
}

proof fn lemma_i3_keyspace_same(ko1: &KeyspaceOwner, ko2: &KeyspaceOwner, k: int)
    requires
        0 <= k < ko1.keyspaces@.len(),
        ko1.wf(),
        crate::keyspaces::keyspace_views(ko1.keyspaces@) == crate::keyspaces::keyspace_views(ko2.keyspaces@),
        ko1.all_actions@.len() == ko2.all_actions@.len(),
        forall|x: int| 0 <= x < ko1.all_actions@.len()
            ==> crate::keyspaces::same_action((#[trigger] ko1.all_actions@[x]).view(), ko2.all_actions@[x].view()),
    ensures
        ko1.keyspaces@[k].title@ == ko2.keyspaces@[k].title@,
        i3_actions(keyspace_actions(ko1, k), "  "@) == i3_actions(keyspace_actions(ko2, k), "  "@),
        i3_actions(keyspace_actions(ko1, k), ""@) == i3_actions(keyspace_actions(ko2, k), ""@),
{
    assert(crate::keyspaces::keyspace_views(ko1.keyspaces@)[k] == ko1.keyspaces@[k].view());
    assert(crate::keyspaces::keyspace_views(ko2.keyspaces@).len() == ko2.keyspaces@.len());
    assert(crate::keyspaces::keyspace_views(ko2.keyspaces@)[k] == ko2.keyspaces@[k].view());
    let ks = ko1.keyspaces@[k];
    assert(ks.action_start < ks.action_end <= ko1.all_actions@.len());
    let a1 = keyspace_actions(ko1, k);
    let a2 = keyspace_actions(ko2, k);
    assert forall|x: int| 0 <= x < a1.len() implies crate::keyspaces::same_action((#[trigger] a1[x]).view(), a2[x].view()) by {
        assert(a1[x] == ko1.all_actions@[ks.action_start + x]);
        assert(a2[x] == ko2.all_actions@[ks.action_start + x]);
    }
    lemma_i3_actions_same(a1, a2, "  "@);
    lemma_i3_actions_same(a1, a2, ""@);
}

proof fn lemma_i3_modes_same(ko1: &KeyspaceOwner, ko2: &KeyspaceOwner, to: int)
    requires
        to <= ko1.keyspaces@.len(),
        ko1.wf(),
        crate::keyspaces::keyspace_views(ko1.keyspaces@) == crate::keyspaces::keyspace_views(ko2.keyspaces@),
        ko1.all_actions@.len() == ko2.all_actions@.len(),
        forall|x: int| 0 <= x < ko1.all_actions@.len()
            ==> crate::keyspaces::same_action((#[trigger] ko1.all_actions@[x]).view(), ko2.all_actions@[x].view()),
    ensures
        i3_modes(ko1, to) == i3_modes(ko2, to),
    decreases to,
{
    if to > 1 {
        lemma_i3_modes_same(ko1, ko2, to - 1);
        lemma_i3_keyspace_same(ko1, ko2, to - 1);
    }
}

/// The i3 configuration of shortcuts none of which starts another (as
/// `parser::parse` gives them) is determined by them: any two keyspace owners
/// of the shortcuts print it alike.
pub proof fn lemma_i3_text_unique<'p, 'f>(ko1: KeyspaceOwner<'p, 'f>, ko2: KeyspaceOwner<'p, 'f>, o: ShortcutOwner<'f>)
    requires
        crate::keyspaces::keyspaces_of(ko1, o),
        crate::keyspaces::keyspaces_of(ko2, o),
        o.wf(),
        crate::parser::prefix_free(o.models()),
        crate::keyspaces::has_command_chord(o),
    ensures
        I3Shell(&ko1).printed() == I3Shell(&ko2).printed(),
{
    crate::keyspaces::lemma_keyspaces_unique(ko1, ko2, o);
    crate::keyspaces::lemma_keyspaces_exist(ko1, o);
    assert(crate::keyspaces::keyspace_views(ko1.keyspaces@).len() == ko1.keyspaces@.len());
    assert(crate::keyspaces::keyspace_views(ko2.keyspaces@).len() == ko2.keyspaces@.len());
    lemma_i3_modes_same(&ko1, &ko2, ko1.keyspaces@.len() as int);
    lemma_i3_keyspace_same(&ko1, &ko2, 0);
}

/// A chord as an i3 key binding writes it.
pub fn i3_wrap_chord<'a, 'b>(chord: &'a Chord<'b>) -> (d: DeserialisedChord<'a, 'b>)
    ensures
        d.printed() == i3_chord(*chord),
        d.printable(),
{
    DeserialisedChord("+", chord, &KEYCODES, &I3_MODIFIERS)
}

/// A chord as the title of an i3 mode writes it.
pub fn i3_wrap_title<'a, 'b>(chord: &'a Chord<'b>) -> (d: DeserialisedChord<'a, 'b>)
    ensures
        d.printed() == chord_text("+"@, *chord, KEYCODES@, I3_TITLE_MODIFIERS@),
        d.printable(),
{
    DeserialisedChord("+", chord, &KEYCODES, &I3_TITLE_MODIFIERS)
}

/// An action's title, if it has one, is not empty.
pub open spec fn action_ok(a: Action) -> bool {
    a matches Action::SetState(title) ==> title@.len() > 0
}

fn push_i3_action(buffer: &mut String, a: &Action)
    requires
        action_ok(*a),
    ensures
        final(buffer)@ == old(buffer)@ + i3_action(*a),
{
    let ghost start = buffer@;
    let trigger = a.key_trigger();
    push_str(buffer, "bindsym ");
    i3_wrap_chord(trigger).push_string_into(buffer);
    match a {
        Action::SetState(title) => {
            push_str(buffer, " mode \"");
            push_hotkey(buffer, title, ";", "+", &KEYCODES, &I3_TITLE_MODIFIERS);
            push_str(buffer, "\"");
        },
        Action::Command(_, shortcut) => {
            push_str(buffer, " exec --no-startup-id \"");
            push_str(buffer, "shortcuts.sh '");
            push_hotkey(buffer, shortcut.hotkey, " ; ", " ", &KEYCODES, &MODIFIERS);
            push_str(buffer, "'\"; mode \"default\"");
        },
    }
    assert(buffer@ =~= start + i3_action(*a));
}

fn push_i3_actions(buffer: &mut String, acts: &[Action], padding: &str)
    requires
        forall|k: int| 0 <= k < acts@.len() ==> action_ok(#[trigger] acts@[k]),
    ensures
        final(buffer)@ == old(buffer)@ + i3_actions(acts@, padding@),
{
    let ghost start = buffer@;
    let mut k: usize = 0;
    while k < acts.len()
        invariant
            k <= acts@.len(),
            forall|x: int| 0 <= x < acts@.len() ==> action_ok(#[trigger] acts@[x]),
            buffer@ == start + i3_actions(acts@.take(k as int), padding@),
        decreases acts@.len() - k,
    {
        assert(acts@.take(k + 1).drop_last() =~= acts@.take(k as int));
        assert(action_ok(acts@[k as int]));
        push_str(buffer, padding);
        push_i3_action(buffer, &acts[k]);
        push_str(buffer, "\n");
        assert(buffer@ =~= start + i3_actions(acts@.take(k + 1), padding@));
        k += 1;
    }
    assert(acts@.take(acts@.len() as int) =~= acts@);
}

/// The i3 configuration of the keyspaces: the bindings of the first (the one
/// reached by typing nothing), then a mode for each other.
pub struct I3Shell<'keyspaces, 'parsemes, 'filestr>(pub &'keyspaces KeyspaceOwner<'parsemes, 'filestr>);

impl<'keyspaces, 'parsemes, 'filestr> Print for I3Shell<'keyspaces, 'parsemes, 'filestr> {
    open spec fn printed(&self) -> Seq<char> {
        i3_actions(keyspace_actions(self.0, 0), ""@) + i3_modes(self.0, self.0.keyspaces@.len() as int)
    }

    open spec fn printable(&self) -> bool {
        &&& self.0.wf()
        &&& self.0.keyspaces@.len() > 0
    }

    fn push_string_into(&self, buffer: &mut String) {
        let ko = self.0;
        let ghost start = buffer@;
        let mut iter = ko.to_iter();
        let n = ko.keyspaces.len();
        let mut k: usize = 0;
        while k < n
            invariant
                ko.wf(),
                n == ko.keyspaces@.len(),
                n > 0,
                iter.owner == ko,
                iter.index == k,
                k <= n,
                k == 0 ==> buffer@ == start,
                k > 0 ==> buffer@ == start + i3_actions(keyspace_actions(ko, 0), ""@) + i3_modes(ko, k as int),
            decreases n - k,
        {
            let item = iter.next();
            let ghost ks = ko.keyspaces@[k as int];
            proof {
                assert(ks.action_start < ks.action_end <= ko.all_actions@.len());
            }
            match item {
                Some(keyspace) => {
                    assert(keyspace.actions@ == keyspace_actions(ko, k as int));
                    proof {
                        assert forall|x: int| 0 <= x < keyspace.actions@.len() implies action_ok(#[trigger] keyspace.actions@[x]) by {
                            assert(keyspace.actions@[x] == ko.all_actions@[ks.action_start + x]);
                            assert(crate::keyspaces::extends(ks.title@, ko.all_actions@[ks.action_start + x]));
                        }
                    }
                    if k == 0 {
                        push_i3_actions(buffer, keyspace.actions, "");
                        assert(buffer@ =~= start + i3_actions(keyspace_actions(ko, 0), ""@) + i3_modes(ko, 1));
                    } else {
                        let ghost before = buffer@;
                        push_str(buffer, "\nmode \"");
                        push_hotkey(buffer, keyspace.title, ";", "+", &KEYCODES, &I3_TITLE_MODIFIERS);
                        push_str(buffer, "\" {\n");
                        push_i3_actions(buffer, keyspace.actions, "  ");
                        push_str(buffer, "  bindsym Escape mode \"default\"\n");
                        push_str(buffer, "}\n");
                        assert(buffer@ =~= before + i3_keyspace(ks.title@, keyspace_actions(ko, k as int)));
                    }
                },
                None => {},
            }
            k += 1;
        }
    }
}

/****************************************************************************
 * Keyspaces for debugging
 ****************************************************************************/

/// The text of a string as Rust's `Debug` formats it: quoted, with escapes.
pub uninterp spec fn str_debug(s: Seq<char>) -> Seq<char>;

/// Formats `s` with `<str as Debug>::fmt` (`format!("{:?}", s)`): the string
/// in double quotes, with `"` and `\` escaped and the characters that std does
/// not print as they are written as escapes. Which characters those are
/// follows std's Unicode tables, which nothing here states: the result is named
/// `str_debug` and depends on the characters of `s` alone.
#[verifier::external_body]
fn debug_str(s: &str) -> (r: String)
    ensures
        r@ == str_debug(s@),
{
    format!("{:?}", s)
}

/// The text of the sections of a command, one after the other.
fn command_text(list: &[WithSpan<()>]) -> (text: String)
    requires
        forall|y: int| 0 <= y < list@.len() ==> (#[trigger] list@[y]).wf(),
    ensures
        text@ == concat(span_texts(list@)),
{
    let mut text = String::new();
    let mut k: usize = 0;
    while k < list.len()
        invariant
            k <= list@.len(),
            forall|y: int| 0 <= y < list@.len() ==> (#[trigger] list@[y]).wf(),
            text@ == concat(span_texts(list@).take(k as int)),
        decreases list@.len() - k,
    {
        let part = list[k].as_str();
        push_str(&mut text, part);
        proof {
            assert(span_texts(list@).take(k + 1).drop_last() =~= span_texts(list@).take(k as int));
            assert(span_texts(list@)[k as int] == part@);
        }
        k += 1;
    }
    assert(span_texts(list@).take(list@.len() as int) =~= span_texts(list@));
    text
}

/// An action for debugging: the keyspace it leads to, or its trigger and the
/// text of its command as `Debug` formats it.
pub open spec fn debug_action(a: Action) -> Seq<char> {
    match a {
        Action::SetState(t) => "set state "@ + hotkey_text(t@, " ; "@, " "@, KEYCODES@, MODIFIERS@),
        Action::Command(trigger, s) => debug_command(trigger, str_debug(concat(span_texts(s.command@)))),
    }
}

/// The line of a command for debugging, from its trigger and its quoted text.
pub open spec fn debug_command(trigger: Chord, quoted: Seq<char>) -> Seq<char> {
    chord_text(" "@, trigger, KEYCODES@, MODIFIERS@) + " -> "@ + quoted
}

/// A keyspace for debugging, from the number of its actions, its quoted
/// title and the lines of its actions.
pub open spec fn debug_keyspace_of(count: nat, quoted_title: Seq<char>, lines: Seq<Seq<char>>) -> Seq<char> {
    "state "@ + decimal(count) + " "@ + quoted_title + " {\n  "@ + join(lines, "\n  "@) + "\n}\n\n"@
}

/// A keyspace for debugging: the number of its actions, its title as `Debug`
/// formats it, and its actions, one per line.
pub open spec fn debug_keyspace(title: Seq<Chord>, acts: Seq<Action>) -> Seq<char> {
    debug_keyspace_of(
        acts.len(),
        str_debug(hotkey_text(title, " ; "@, " "@, KEYCODES@, MODIFIERS@)),
        acts.map_values(|a: Action| debug_action(a)),
    )
}

/// The keyspaces `0..to` for debugging.
pub open spec fn debug_keyspaces(ko: &KeyspaceOwner, to: int) -> Seq<char>
    decreases to,
{
    if to <= 0 {
        Seq::empty()
    } else {
        debug_keyspaces(ko, to - 1) + debug_keyspace(ko.keyspaces@[to - 1].title@, keyspace_actions(ko, to - 1))
    }
}

/// The line of a command for debugging: its trigger, an arrow and
/// `quoted_command`, the text of the command as `Debug` formats it.
pub fn debug_command_line(trigger: &Chord, quoted_command: &str) -> (line: String)
    ensures
        line@ == debug_command(*trigger, quoted_command@),
{
    let mut line = String::new();
    default_print_chord(trigger).push_string_into(&mut line);
    push_str(&mut line, " -> ");
    push_str(&mut line, quoted_command);
    line
}

/// A keyspace for debugging: `count` (the number of its actions), its title
/// `quoted_title` as `Debug` formats it, and the `lines` of its actions.
pub fn debug_keyspace_text(count: usize, quoted_title: &str, lines: &Vec<String>) -> (text: String)
    ensures
        text@ == debug_keyspace_of(count as nat, quoted_title@, lines@.map_values(|l: String| l@)),
{
    let mut text = String::new();
    push_str(&mut text, "state ");
    let digits = crate::reporter::count_digits(count);
    crate::reporter::push_num(&mut text, digits, count);
    push_str(&mut text, " ");
    push_str(&mut text, quoted_title);
    push_str(&mut text, " {\n  ");
    let ghost texts = lines@.map_values(|l: String| l@);
    let ghost mid = text@;
    let mut x: usize = 0;
    while x < lines.len()
        invariant
            x <= lines@.len(),
            texts == lines@.map_values(|l: String| l@),
            text@ == mid + join(texts.take(x as int), "\n  "@),
        decreases lines@.len() - x,
    {
        if x > 0 {
            push_str(&mut text, "\n  ");
        }
        push_str(&mut text, lines[x].as_str());
        proof {
            assert(texts.take(x + 1) =~= texts.take(x as int).push(texts[x as int]));
            lemma_join_push(texts.take(x as int), texts[x as int], "\n  "@);
        }
        x += 1;
    }
    assert(texts.take(lines@.len() as int) =~= texts);
    push_str(&mut text, "\n}\n\n");
    proof {
        assert(padded(decimal(count as nat), digits as int) =~= decimal(count as nat));
        assert(text@ =~= debug_keyspace_of(count as nat, quoted_title@, texts));
    }
    text
}

fn debug_action_line(a: &Action) -> (line: String)
    requires
        a matches Action::Command(_, s) ==> forall|y: int| 0 <= y < s.command@.len() ==> (#[trigger] s.command@[y]).wf(),
    ensures
        line@ == debug_action(*a),
{
    match a {
        Action::SetState(title) => {
            let mut line = String::new();
            push_str(&mut line, "set state ");
            push_hotkey(&mut line, title, " ; ", " ", &KEYCODES, &MODIFIERS);
            line
        },
        Action::Command(trigger, shortcut) => {
            let text = command_text(shortcut.command);
            let quoted = debug_str(text.as_str());
            debug_command_line(trigger, quoted.as_str())
        },
    }
}

/// The keyspaces of an owner, each with its title and actions, for debugging.
pub struct KeyspaceDebug<'keyspaces, 'parsemes, 'filestr>(pub &'keyspaces KeyspaceOwner<'parsemes, 'filestr>);

impl<'keyspaces, 'parsemes, 'filestr> Print for KeyspaceDebug<'keyspaces, 'parsemes, 'filestr> {
    open spec fn printed(&self) -> Seq<char> {
        debug_keyspaces(self.0, self.0.keyspaces@.len() as int)
    }

    open spec fn printable(&self) -> bool {
        &&& self.0.wf()
        &&& crate::keyspaces::action_commands_ok(self.0.all_actions@)
    }

    fn push_string_into(&self, buffer: &mut String) {
        let ko = self.0;
        let ghost start = buffer@;
        let mut k: usize = 0;
        while k < ko.keyspaces.len()
            invariant
                ko.wf(),
                crate::keyspaces::action_commands_ok(ko.all_actions@),
                k <= ko.keyspaces@.len(),
                buffer@ == start + debug_keyspaces(ko, k as int),
            decreases ko.keyspaces@.len() - k,
        {
            let ks = ko.keyspaces[k];
            assert(ks == ko.keyspaces@[k as int]);
            assert(ks.action_start < ks.action_end <= ko.all_actions@.len());
            let actions = vstd::slice::slice_subrange(ko.all_actions.as_slice(), ks.action_start, ks.action_end);
            let n = actions.len();
            let mut title = String::new();
            push_hotkey(&mut title, ks.title, " ; ", " ", &KEYCODES, &MODIFIERS);
            let quoted_title = debug_str(title.as_str());
            let ghost texts = actions@.map_values(|a: Action| debug_action(a));
            let mut lines: Vec<String> = Vec::new();
            let mut x: usize = 0;
            while x < n
                invariant
                    x <= n == actions@.len(),
                    actions@ == keyspace_actions(ko, k as int),
                    ks == ko.keyspaces@[k as int],
                    ks.action_start < ks.action_end <= ko.all_actions@.len(),
                    crate::keyspaces::action_commands_ok(ko.all_actions@),
                    texts == actions@.map_values(|a: Action| debug_action(a)),
                    lines@.map_values(|l: String| l@) == texts.take(x as int),
                decreases n - x,
            {
                assert(actions@[x as int] == ko.all_actions@[ks.action_start + x]);
                let line = debug_action_line(&actions[x]);
                let ghost before = lines@;
                lines.push(line);
                proof {
                    assert(lines@.map_values(|l: String| l@) =~= before.map_values(|l: String| l@).push(line@));
                    assert(texts.take(x + 1) =~= texts.take(x as int).push(texts[x as int]));
                }
                x += 1;
            }
            assert(texts.take(n as int) =~= texts);
            let text = debug_keyspace_text(n, quoted_title.as_str(), &lines);
            push_str(buffer, text.as_str());
            k += 1;
        }
    }
}

/****************************************************************************
 * What the printed texts name
 ****************************************************************************/

/// How many of the bits `0..n` of `mods` are set.
pub open spec fn set_bits(mods: u8, n: int) -> nat
    decreases n,
{
    if n <= 0 {
        0
    } else {
        set_bits(mods, n - 1) + if n - 1 < 8 && mods & (1u8 << (n - 1) as u8) != 0 { 1nat } else { 0nat }
    }
}

proof fn lemma_mod_names_all(mods: u8, names: Seq<&str>, n: int)
    requires
        0 <= n <= 8,
    ensures
        mod_names(mods, names, n).len() == set_bits(mods, n),
        forall|i: int| 0 <= i < n && mods & (1u8 << i as u8) != 0 ==> mod_names(mods, names, n).contains(#[trigger] names[i]@),
    decreases n,
{
    if n > 0 {
        lemma_mod_names_all(mods, names, n - 1);
        let rest = mod_names(mods, names, n - 1);
        assert forall|i: int| 0 <= i < n && mods & (1u8 << i as u8) != 0 implies mod_names(mods, names, n).contains(#[trigger] names[i]@) by {
            if i < n - 1 {
                let k = choose|k: int| 0 <= k < rest.len() && rest[k] == names[i]@;
                if mods & (1u8 << (n - 1) as u8) != 0 {
                    assert(mod_names(mods, names, n)[k] == rest[k]);
                }
            } else {
                assert(mod_names(mods, names, n).last() == names[i]@);
            }
        }
    }
}

/// A chord's text names every modifier whose bit is set, and its key last: it
/// is its words joined with `delim`, one word for each set modifier and one
/// for the key (when it has one).
pub proof fn lemma_chord_text_names_all(delim: Seq<char>, c: Chord, keycodes: Seq<&str>, modifiers: Seq<&str>)
    requires
        modifiers.len() <= 8,
    ensures
        exists|words: Seq<Seq<char>>| {
            &&& chord_text(delim, c, keycodes, modifiers) == #[trigger] join(words, delim)
            &&& words.len() == set_bits(c.modifiers, modifiers.len() as int) + if c.key < keycodes.len() { 1nat } else { 0nat }
            &&& forall|i: int| 0 <= i < modifiers.len() && c.modifiers & (1u8 << i as u8) != 0 ==> words.contains(#[trigger] modifiers[i]@)
            &&& c.key < keycodes.len() ==> words.last() == keycodes[c.key as int]@
        },
{
    let mods = mod_names(c.modifiers, modifiers, modifiers.len() as int);
    lemma_mod_names_all(c.modifiers, modifiers, modifiers.len() as int);
    let words = if c.key < keycodes.len() { mods.push(keycodes[c.key as int]@) } else { mods };
    assert forall|i: int| 0 <= i < modifiers.len() && c.modifiers & (1u8 << i as u8) != 0 implies words.contains(#[trigger] modifiers[i]@) by {
        assert(mods.contains(modifiers[i]@));
        let k = choose|k: int| 0 <= k < mods.len() && mods[k] == modifiers[i]@;
        assert(words[k] == mods[k]);
    }
    assert(chord_text(delim, c, keycodes, modifiers) == join(words, delim));
}

/// Hotkeys are written chord by chord: one chord more adds `sep` and its text.
pub proof fn lemma_hotkey_text_push(h: Seq<Chord>, c: Chord, sep: Seq<char>, delim: Seq<char>, keycodes: Seq<&str>, modifiers: Seq<&str>)
    ensures
        hotkey_text(h.push(c), sep, delim, keycodes, modifiers) == if h.len() == 0 {
            chord_text(delim, c, keycodes, modifiers)
        } else {
            hotkey_text(h, sep, delim, keycodes, modifiers) + sep + chord_text(delim, c, keycodes, modifiers)
        },
{
    let f = |x: Chord| chord_text(delim, x, keycodes, modifiers);
    assert(h.push(c).map_values(f) =~= h.map_values(f).push(f(c)));
    lemma_join_push(h.map_values(f), f(c), sep);
}

/// The name of an i3 mode holds every chord of the keyspace's title: a title
/// one chord longer is named by the shorter one's name, `;` and the chord, so
/// keyspaces of different depths get different modes.
pub proof fn lemma_i3_title_extends(t: Seq<Chord>, c: Chord)
    ensures
        i3_title(seq![c]) == chord_text("+"@, c, KEYCODES@, I3_TITLE_MODIFIERS@),
        t.len() > 0 ==> i3_title(t.push(c)) == i3_title(t) + ";"@ + i3_title(seq![c]),
        t.len() > 0 ==> i3_title(t.push(c)).len() > i3_title(t).len(),
{
    lemma_hotkey_text_push(Seq::empty(), c, ";"@, "+"@, KEYCODES@, I3_TITLE_MODIFIERS@);
    assert(Seq::<Chord>::empty().push(c) =~= seq![c]);
    lemma_hotkey_text_push(t, c, ";"@, "+"@, KEYCODES@, I3_TITLE_MODIFIERS@);
    reveal_strlit(";");
}

/// The text of every chord of `h` with `delim` inside chords, joined with `sep`.
pub open spec fn chords_joined(h: Seq<Chord>, sep: Seq<char>, delim: Seq<char>, keycodes: Seq<&str>, modifiers: Seq<&str>) -> Seq<char> {
    join(h.map_values(|c: Chord| chord_text(delim, c, keycodes, modifiers)), sep)
}

/// A case of the shell script starts with its whole hotkey quoted: the text of
/// every chord, joined with ` ; `; a line of the listing starts with the same
/// text between bars.
pub proof fn lemma_line_names_whole_hotkey(v: ShortcutView)
    ensures
        ({
            let h = chords_joined(v.hotkey, " ; "@, " "@, KEYCODES@, MODIFIERS@);
            let p = "\""@ + h + "\")"@;
            &&& p.len() <= line_text(LineStyle::Shell, v).len()
            &&& line_text(LineStyle::Shell, v).subrange(0, p.len() as int) == p
        }),
        ({
            let h = chords_joined(v.hotkey, " ; "@, " "@, KEYCODES@, MODIFIERS@);
            let p = "|"@ + h + "|"@;
            &&& p.len() <= line_text(LineStyle::List, v).len()
            &&& line_text(LineStyle::List, v).subrange(0, p.len() as int) == p
        }),
{
    let h = chords_joined(v.hotkey, " ; "@, " "@, KEYCODES@, MODIFIERS@);
    let p = "\""@ + h + "\")"@;
    let l = line_text(LineStyle::Shell, v);
    assert(l.subrange(0, p.len() as int) =~= p);
    let p2 = "|"@ + h + "|"@;
    let l2 = line_text(LineStyle::List, v);
    assert(l2.subrange(0, p2.len() as int) =~= p2);
}

/// The heading of a keyspace for debugging quotes its whole title, the text of
/// every chord joined with ` ; `: the same text that a `set state` line leading
/// to the keyspace names.
pub proof fn lemma_debug_heading_names_title(title: Seq<Chord>, acts: Seq<Action>, a: Action)
    requires
        a matches Action::SetState(t) && t@ == title,
    ensures
        ({
            let text = chords_joined(title, " ; "@, " "@, KEYCODES@, MODIFIERS@);
            let p = "state "@ + decimal(acts.len()) + " "@ + str_debug(text) + " {\n  "@;
            &&& debug_action(a) == "set state "@ + text
            &&& p.len() <= debug_keyspace(title, acts).len()
            &&& debug_keyspace(title, acts).subrange(0, p.len() as int) == p
        }),
{
    let text = chords_joined(title, " ; "@, " "@, KEYCODES@, MODIFIERS@);
    let p = "state "@ + decimal(acts.len()) + " "@ + str_debug(text) + " {\n  "@;
    let d = debug_keyspace(title, acts);
    assert(d.subrange(0, p.len() as int) =~= p);
}

/// A binding that leads to a keyspace is pressed with the last chord of its
/// title and switches to the mode named by the whole title: the mode whose
/// heading `i3_keyspace` writes for that title.
pub proof fn lemma_i3_binding_names_its_mode(a: Action, title: Seq<Chord>, acts: Seq<Action>)
    requires
        a matches Action::SetState(t) && t@ == title,
    ensures
        i3_action(a) == "bindsym "@ + i3_chord(title.last()) + " mode \""@ + i3_title(title) + "\""@,
        ({
            let p = "\nmode \""@ + i3_title(title) + "\" {\n"@;
            &&& p.len() <= i3_keyspace(title, acts).len()
            &&& i3_keyspace(title, acts).subrange(0, p.len() as int) == p
        }),
{
    let p = "\nmode \""@ + i3_title(title) + "\" {\n"@;
    assert(i3_keyspace(title, acts).subrange(0, p.len() as int) =~= p);
}

/// A binding that runs a command calls the shell script with the whole hotkey
/// of its shortcut: the text of every chord joined with ` ; `, which is the
/// pattern of that shortcut's case in the shell script.
pub proof fn lemma_i3_command_matches_shell_case(a: Action)
    requires
        a is Command,
    ensures
        ({
            let trigger = a->Command_0;
            let s = a->Command_1;
            let h = chords_joined(s.hotkey@, " ; "@, " "@, KEYCODES@, MODIFIERS@);
            let p = "\""@ + h + "\")"@;
            &&& i3_action(a) == "bindsym "@ + i3_chord(trigger) + " exec --no-startup-id \""@ + "shortcuts.sh '"@ + h
                + "'\"; mode \"default\""@
            &&& line_text(LineStyle::Shell, shortcut_view(s)).subrange(0, p.len() as int) == p
        }),
{
    lemma_line_names_whole_hotkey(shortcut_view(a->Command_1));
}

} // verus!
