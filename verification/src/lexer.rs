//! The first phase: splits a shortcut file into head lexemes (the keys of the
//! hotkeys) and body lexemes (the pieces of the commands).
//!
//! A file is a list of entries. An entry starts at a line beginning with `|`
//! (a shortcut) or `!` (a placeholder); its head runs up to the matching
//! closing `|` or `!`, and its body runs up to the next line that starts an
//! entry. Everything before the first entry is ignored.
use vstd::prelude::*;

use crate::constants::{KEYCODES, MODIFIERS, SEPARATOR};
use crate::errors;
use crate::errors::all_keys;
use crate::reporter::MarkupError;
use crate::structs::WithSpan;
use crate::text::{join, to_chars, views};

verus! {

/// The longest key name (in characters); a longer word cannot be a key.
pub const KEYSTR_UTF8_MAX_LEN: usize = 21;

/// The lexemes of a hotkey definition.
#[derive(Clone, Copy, Debug, PartialEq, Eq, Structural)]
pub enum HeadLexeme {
    Key(usize),
    Mod(usize),
    ChordDelim,
    Blank,
    ChoiceBegin,
    ChoiceDelim,
    ChoiceClose,
}

/// The lexemes of a command: sections of text and the punctuation of
/// permutation groups `{{a,b}}`.
#[derive(Clone, Copy, Debug, PartialEq, Eq, Structural)]
pub enum BodyLexeme {
    Section,
    ChoiceBegin,
    ChoiceDelim,
    ChoiceClose,
}

/// The state of the lexer.
#[derive(Clone, Copy, Debug, PartialEq, Eq, Structural)]
pub enum State {
    Head,
    HeadBrackets,
    Body,
    BodyLiteral,
    BodyBrackets,
}

/// One entry of the file: its head lexemes are `heads[head_start..head_end]`
/// and its body lexemes `bodys[body_start..body_end]`.
#[derive(Clone, Copy, Debug, PartialEq, Eq, Structural)]
pub struct PostLexEntry {
    pub is_placeholder: bool,
    pub head_start: usize,
    pub head_end: usize,
    pub body_start: usize,
    pub body_end: usize,
}

/// The output of the lexer.
#[derive(Debug)]
pub struct LexemeLists<'a> {
    pub entries: Vec<PostLexEntry>,
    pub heads: Vec<WithSpan<'a, HeadLexeme>>,
    pub bodys: Vec<WithSpan<'a, BodyLexeme>>,
}

/****************************************************************************
 * Specification
 ****************************************************************************/

/// The state of the lexer with what it has produced so far.
#[verifier::ext_equal]
pub struct LexModel<'a> {
    pub mode: State,
    pub placeholder: bool,
    pub pos: int,
    pub cursor: int,
    pub head_start: int,
    pub head_end: int,
    pub body_start: int,
    pub entries: Seq<PostLexEntry>,
    pub heads: Seq<WithSpan<'a, HeadLexeme>>,
    pub bodys: Seq<WithSpan<'a, BodyLexeme>>,
}

/// An error: the characters `start..end` it points at, and its message.
pub struct LexError {
    pub start: int,
    pub end: int,
    pub message: Seq<char>,
}

pub open spec fn lex_err(start: int, end: int, message: Seq<char>) -> LexError {
    LexError { start, end, message }
}

pub open spec fn is_separator(ch: char) -> bool {
    SEPARATOR@.contains(ch)
}

/// The first position from `p` on that holds no separator.
pub open spec fn skip_separators(c: Seq<char>, p: int) -> int
    decreases c.len() - p,
{
    if p < c.len() && is_separator(c[p]) {
        skip_separators(c, p + 1)
    } else {
        p
    }
}

/// The first index of `w` in `list`.
pub open spec fn position(list: Seq<Seq<char>>, w: Seq<char>) -> Option<int>
    decreases list.len(),
{
    if list.len() == 0 {
        None
    } else if list[0] == w {
        Some(0)
    } else {
        match position(list.drop_first(), w) {
            Some(k) => Some(k + 1),
            None => None,
        }
    }
}

/// What a word of a head stands for: nothing (blank), a modifier or a key.
pub open spec fn classify(w: Seq<char>) -> Option<HeadLexeme> {
    if w.len() == 0 {
        Some(HeadLexeme::Blank)
    } else {
        match position(views(MODIFIERS@), w) {
            Some(m) => Some(HeadLexeme::Mod(m as usize)),
            None => match position(views(KEYCODES@), w) {
                Some(k) => Some(HeadLexeme::Key(k as usize)),
                None => None,
            },
        }
    }
}

pub open spec fn head_invalid_key_spec() -> Seq<char> {
    errors::HEAD_INVALID_KEY_PREFIX@ + join(all_keys(), " "@)
}

pub open spec fn span<'a, T>(ctx: &'a str, data: T, start: int, end: int) -> WithSpan<'a, T> {
    WithSpan { data, context: ctx, start: start as usize, end: end as usize }
}

/// Pushes the word from the cursor up to `end` as a head lexeme.
pub open spec fn push_key<'a>(ctx: &'a str, m: LexModel<'a>, end: int) -> Result<LexModel<'a>, LexError> {
    match classify(ctx@.subrange(m.cursor, end)) {
        Some(l) => Ok(LexModel { heads: m.heads.push(span(ctx, l, m.cursor, end)), ..m }),
        None => Err(lex_err(m.cursor, end, head_invalid_key_spec())),
    }
}

/// An ordinary character of a head word: too long a word names no key.
pub open spec fn head_word_char<'a>(m: LexModel<'a>) -> Result<LexModel<'a>, LexError> {
    if m.pos - m.cursor > KEYSTR_UTF8_MAX_LEN {
        Err(lex_err(m.cursor, m.pos, head_invalid_key_spec()))
    } else {
        Ok(LexModel { pos: m.pos + 1, ..m })
    }
}

pub open spec fn step_head<'a>(ctx: &'a str, m: LexModel<'a>) -> Result<LexModel<'a>, LexError> {
    let c = ctx@;
    let i = m.pos;
    let ch = c[i];
    let close = if m.placeholder { '!' } else { '|' };
    let other = if m.placeholder { '|' } else { '!' };
    if ch == ',' {
        Err(lex_err(i, i + 1, errors::HEAD_COMMA_OUTSIDE_BRACKETS@))
    } else if ch == '\\' {
        Err(lex_err(i, i + 1, errors::HEAD_NO_ESCAPING@))
    } else if ch == close {
        match push_key(ctx, m, i) {
            Ok(m2) => Ok(LexModel {
                mode: State::Body,
                pos: i + 1,
                cursor: i + 1,
                head_end: m2.heads.len() as int,
                body_start: m2.bodys.len() as int,
                ..m2
            }),
            Err(e) => Err(e),
        }
    } else if ch == other {
        Err(lex_err(i, i + 1, if m.placeholder { errors::BAR_IN_PLACEHOLDER@ } else { errors::EXCLAIM_IN_HEAD@ }))
    } else if ch == '{' {
        if i + 1 < c.len() && c[i + 1] == '{' {
            match push_key(ctx, m, i) {
                Ok(m2) => {
                    let p = skip_separators(c, i + 2);
                    Ok(LexModel {
                        mode: State::HeadBrackets,
                        heads: m2.heads.push(span(ctx, HeadLexeme::ChoiceBegin, i, i + 2)),
                        pos: p,
                        cursor: p,
                        ..m2
                    })
                },
                Err(e) => Err(e),
            }
        } else {
            Err(lex_err(i + 1, if i + 1 < c.len() { i + 2 } else { i + 1 }, errors::MISSING_LBRACKET@))
        }
    } else if ch == ';' || is_separator(ch) {
        match push_key(ctx, m, i) {
            Ok(m2) => {
                let p = skip_separators(c, i + 1);
                Ok(LexModel {
                    heads: if ch == ';' { m2.heads.push(span(ctx, HeadLexeme::ChordDelim, i, i + 1)) } else { m2.heads },
                    pos: p,
                    cursor: p,
                    ..m2
                })
            },
            Err(e) => Err(e),
        }
    } else {
        head_word_char(m)
    }
}

pub open spec fn step_head_brackets<'a>(ctx: &'a str, m: LexModel<'a>) -> Result<LexModel<'a>, LexError> {
    let c = ctx@;
    let i = m.pos;
    let ch = c[i];
    if ch == '|' {
        Err(lex_err(i, i + 1, errors::HEAD_INVALID_CLOSE@))
    } else if ch == '\\' {
        Err(lex_err(i, i + 1, errors::HEAD_NO_ESCAPING@))
    } else if ch == '}' {
        if i + 1 < c.len() && c[i + 1] == '}' {
            match push_key(ctx, m, i) {
                Ok(m2) => {
                    let p = skip_separators(c, i + 2);
                    Ok(LexModel {
                        mode: State::Head,
                        heads: m2.heads.push(span(ctx, HeadLexeme::ChoiceClose, i, i + 2)),
                        pos: p,
                        cursor: p,
                        ..m2
                    })
                },
                Err(e) => Err(e),
            }
        } else {
            Err(lex_err(i + 1, if i + 1 < c.len() { i + 2 } else { i + 1 }, errors::MISSING_RBRACKET@))
        }
    } else if ch == ';' || ch == ',' || is_separator(ch) {
        match push_key(ctx, m, i) {
            Ok(m2) => {
                let p = skip_separators(c, i + 1);
                Ok(LexModel {
                    heads: if ch == ';' {
                        m2.heads.push(span(ctx, HeadLexeme::ChordDelim, i, i + 1))
                    } else if ch == ',' {
                        m2.heads.push(span(ctx, HeadLexeme::ChoiceDelim, i, i + 1))
                    } else {
                        m2.heads
                    },
                    pos: p,
                    cursor: p,
                    ..m2
                })
            },
            Err(e) => Err(e),
        }
    } else {
        head_word_char(m)
    }
}

/// The entry that ends once the body section up to `m.bodys` is pushed.
pub open spec fn finished_entry<'a>(m: LexModel<'a>) -> PostLexEntry {
    PostLexEntry {
        is_placeholder: m.placeholder,
        head_start: m.head_start as usize,
        head_end: m.head_end as usize,
        body_start: m.body_start as usize,
        body_end: m.bodys.len() as usize,
    }
}

pub open spec fn step_body<'a>(ctx: &'a str, m: LexModel<'a>) -> Result<LexModel<'a>, LexError> {
    let c = ctx@;
    let i = m.pos;
    let ch = c[i];
    if ch == '\n' && i + 1 < c.len() && (c[i + 1] == '|' || c[i + 1] == '!') {
        let m2 = LexModel { bodys: m.bodys.push(span(ctx, BodyLexeme::Section, m.cursor, i + 1)), ..m };
        Ok(LexModel {
            mode: State::Head,
            placeholder: c[i + 1] == '!',
            entries: m2.entries.push(finished_entry(m2)),
            head_start: m2.heads.len() as int,
            pos: i + 2,
            cursor: i + 2,
            ..m2
        })
    } else if ch == '{' && i + 2 < c.len() && c[i + 1] == '{' && c[i + 2] == '{' {
        Ok(LexModel {
            mode: State::BodyLiteral,
            bodys: m.bodys.push(span(ctx, BodyLexeme::Section, m.cursor, i)),
            pos: i + 3,
            cursor: i + 3,
            ..m
        })
    } else if ch == '{' && i + 1 < c.len() && c[i + 1] == '{' {
        Ok(LexModel {
            mode: State::BodyBrackets,
            bodys: m.bodys.push(span(ctx, BodyLexeme::Section, m.cursor, i)).push(
                span(ctx, BodyLexeme::ChoiceBegin, i, i + 2),
            ),
            pos: i + 2,
            cursor: i + 2,
            ..m
        })
    } else {
        Ok(LexModel { pos: i + 1, ..m })
    }
}

/// A backslash in a body: escapes the next character, or joins the next
/// line when followed by a newline.
pub open spec fn step_escape<'a>(ctx: &'a str, m: LexModel<'a>) -> Result<LexModel<'a>, LexError> {
    let c = ctx@;
    let i = m.pos;
    if i + 1 < c.len() {
        let before = m.bodys.push(span(ctx, BodyLexeme::Section, m.cursor, i));
        Ok(LexModel {
            bodys: if c[i + 1] == '\n' {
                before
            } else {
                before.push(span(ctx, BodyLexeme::Section, i + 1, i + 2))
            },
            pos: i + 2,
            cursor: i + 2,
            ..m
        })
    } else {
        Ok(LexModel { pos: i + 1, ..m })
    }
}

pub open spec fn step_body_literal<'a>(ctx: &'a str, m: LexModel<'a>) -> Result<LexModel<'a>, LexError> {
    let c = ctx@;
    let i = m.pos;
    let ch = c[i];
    if ch == '\\' {
        step_escape(ctx, m)
    } else if ch == '}' && i + 2 < c.len() && c[i + 1] == '}' && c[i + 2] == '}' {
        Ok(LexModel {
            mode: State::Body,
            bodys: m.bodys.push(span(ctx, BodyLexeme::Section, m.cursor, i)),
            pos: i + 3,
            cursor: i + 3,
            ..m
        })
    } else {
        Ok(LexModel { pos: i + 1, ..m })
    }
}

pub open spec fn step_body_brackets<'a>(ctx: &'a str, m: LexModel<'a>) -> Result<LexModel<'a>, LexError> {
    let c = ctx@;
    let i = m.pos;
    let ch = c[i];
    if ch == '}' && i + 1 < c.len() && c[i + 1] == '}' {
        Ok(LexModel {
            mode: State::Body,
            bodys: m.bodys.push(span(ctx, BodyLexeme::Section, m.cursor, i)).push(
                span(ctx, BodyLexeme::ChoiceClose, i, i + 2),
            ),
            pos: i + 2,
            cursor: i + 2,
            ..m
        })
    } else if ch == '\\' {
        step_escape(ctx, m)
    } else if ch == ',' {
        Ok(LexModel {
            bodys: m.bodys.push(span(ctx, BodyLexeme::Section, m.cursor, i)).push(
                span(ctx, BodyLexeme::ChoiceDelim, i, i + 1),
            ),
            pos: i + 1,
            cursor: i + 1,
            ..m
        })
    } else if ch == '\n' && i + 1 < c.len() && c[i + 1] == '|' {
        Err(lex_err(i + 1, i + 2, errors::BODY_BRACKET_NO_NEWLINE_BAR@))
    } else if ch == '{' && i + 1 < c.len() && c[i + 1] == '{' {
        Err(lex_err(i, i + 2, errors::DOUBLE_LBRACKET_IN_BODY_PERMUTATION_GROUP@))
    } else {
        Ok(LexModel { pos: i + 1, ..m })
    }
}

/// One step of the lexer at position `m.pos`.
pub open spec fn step<'a>(ctx: &'a str, m: LexModel<'a>) -> Result<LexModel<'a>, LexError> {
    match m.mode {
        State::Head => step_head(ctx, m),
        State::HeadBrackets => step_head_brackets(ctx, m),
        State::Body => step_body(ctx, m),
        State::BodyLiteral => step_body_literal(ctx, m),
        State::BodyBrackets => step_body_brackets(ctx, m),
    }
}

/// At the end of the text: only a body may be open; it becomes the last section.
pub open spec fn finish<'a>(ctx: &'a str, m: LexModel<'a>) -> Result<LexModel<'a>, LexError> {
    let n = ctx@.len() as int;
    match m.mode {
        State::Body => {
            let m2 = LexModel { bodys: m.bodys.push(span(ctx, BodyLexeme::Section, m.cursor, n)), ..m };
            Ok(LexModel { entries: m2.entries.push(finished_entry(m2)), ..m2 })
        },
        State::Head => Err(lex_err(n, n, if m.placeholder { errors::END_BEFORE_PLACEHOLDER_CLOSE@ } else { errors::END_BEFORE_HEAD_CLOSE@ })),
        State::HeadBrackets => Err(lex_err(n, n, errors::END_BEFORE_HEAD_CLOSE@)),
        State::BodyLiteral => Err(lex_err(n, n, errors::UNFINISHED_LITERAL@)),
        State::BodyBrackets => Err(lex_err(n, n, errors::END_BEFORE_BRACKET_CLOSE@)),
    }
}

/// Runs the lexer from state `m` to the end of the text.
pub open spec fn run<'a>(ctx: &'a str, m: LexModel<'a>) -> Result<LexModel<'a>, LexError>
    decreases ctx@.len() - m.pos,
{
    if m.pos >= ctx@.len() {
        finish(ctx, m)
    } else {
        match step(ctx, m) {
            Ok(m2) => if m.pos < m2.pos && m2.pos <= ctx@.len() { run(ctx, m2) } else { Err(lex_err(0, 0, Seq::empty())) },
            Err(e) => Err(e),
        }
    }
}

/// The first position from `p` on that starts a line with `|` or `!`.
pub open spec fn first_head(c: Seq<char>, p: int) -> Option<int>
    decreases c.len() - p,
{
    if p >= c.len() {
        None
    } else if (c[p] == '|' || c[p] == '!') && (p == 0 || c[p - 1] == '\n') {
        Some(p)
    } else {
        first_head(c, p + 1)
    }
}

/// The state right after the bar that opens the first entry at `p`.
pub open spec fn initial<'a>(ctx: &'a str, p: int) -> LexModel<'a> {
    LexModel {
        mode: State::Head,
        placeholder: ctx@[p] == '!',
        pos: p + 1,
        cursor: p + 1,
        head_start: 0,
        head_end: 0,
        body_start: 0,
        entries: Seq::empty(),
        heads: Seq::empty(),
        bodys: Seq::empty(),
    }
}

/// What lexing `ctx` gives.
pub open spec fn lex_spec<'a>(ctx: &'a str) -> Result<LexModel<'a>, LexError> {
    match first_head(ctx@, 0) {
        Some(p) => run(ctx, initial(ctx, p)),
        None => Ok(LexModel { entries: Seq::empty(), heads: Seq::empty(), bodys: Seq::empty(), ..initial(ctx, 0) }),
    }
}

/****************************************************************************
 * Lemmas
 ****************************************************************************/

proof fn lemma_skip_separators_bounds(c: Seq<char>, p: int)
    requires
        0 <= p <= c.len(),
    ensures
        p <= skip_separators(c, p) <= c.len(),
    decreases c.len() - p,
{
    if p < c.len() && is_separator(c[p]) {
        lemma_skip_separators_bounds(c, p + 1);
    }
}

proof fn lemma_position(list: Seq<Seq<char>>, w: Seq<char>, i: int)
    requires
        0 <= i <= list.len(),
        forall|j: int| 0 <= j < i ==> list[j] != w,
    ensures
        i < list.len() && list[i] == w ==> position(list, w) == Some(i),
        i == list.len() ==> position(list, w) is None,
    decreases i,
{
    if i > 0 {
        assert(list[0] != w);
        let rest = list.drop_first();
        assert forall|j: int| 0 <= j < i - 1 implies rest[j] != w by {
            assert(rest[j] == list[j + 1]);
        }
        lemma_position(rest, w, i - 1);
        if i < list.len() && list[i] == w {
            assert(rest[i - 1] == list[i]);
        }
    } else if list.len() > 0 {
        if i == list.len() {
        } else {
        }
    }
}

/// The lexer's position is within the text and not behind its cursor.
pub open spec fn model_wf<'a>(ctx: &'a str, m: LexModel<'a>) -> bool {
    0 <= m.cursor <= m.pos <= ctx@.len() <= usize::MAX
}

proof fn lemma_step_progress<'a>(ctx: &'a str, m: LexModel<'a>)
    requires
        model_wf(ctx, m),
        m.pos < ctx@.len(),
    ensures
        step(ctx, m) matches Ok(m2) ==> m.pos < m2.pos && model_wf(ctx, m2),
{
    lemma_skip_separators_bounds(ctx@, m.pos + 1);
    if m.pos + 2 <= ctx@.len() {
        lemma_skip_separators_bounds(ctx@, m.pos + 2);
    }
}

proof fn lemma_step_bounds<'a>(ctx: &'a str, m: LexModel<'a>)
    requires
        model_wf(ctx, m),
        m.pos < ctx@.len(),
    ensures
        step(ctx, m) matches Ok(m2) ==> m.cursor <= m2.cursor,
        step(ctx, m) matches Err(e) ==> m.cursor <= e.start <= e.end <= ctx@.len(),
{
    lemma_step_progress(ctx, m);
    lemma_skip_separators_bounds(ctx@, m.pos + 1);
    if m.pos + 2 <= ctx@.len() {
        lemma_skip_separators_bounds(ctx@, m.pos + 2);
    }
}

/// An error of the lexer points at characters from `m`'s cursor on.
proof fn lemma_run_err_bounds<'a>(ctx: &'a str, m: LexModel<'a>, b: int)
    requires
        model_wf(ctx, m),
        b <= m.cursor,
    ensures
        run(ctx, m) matches Err(e) ==> b <= e.start <= e.end <= ctx@.len(),
    decreases ctx@.len() - m.pos,
{
    if m.pos < ctx@.len() {
        lemma_step_progress(ctx, m);
        lemma_step_bounds(ctx, m);
        if let Ok(m2) = step(ctx, m) {
            lemma_run_err_bounds(ctx, m2, b);
        }
    }
}

/// A span of the text `ctx`.
pub open spec fn span_ok<'a, T>(ctx: &'a str, s: WithSpan<'a, T>) -> bool {
    s.context == ctx && s.wf()
}

/// A key or modifier lexeme names an existing key or modifier.
pub open spec fn head_ok(l: HeadLexeme) -> bool {
    match l {
        HeadLexeme::Key(k) => k < KEYCODES@.len(),
        HeadLexeme::Mod(m) => m < MODIFIERS@.len(),
        _ => true,
    }
}

pub open spec fn entry_ok(e: PostLexEntry, head_count: nat, body_count: nat) -> bool {
    e.head_start <= e.head_end <= head_count && e.body_start <= e.body_end <= body_count
}

/// All lexemes are spans of `ctx`, and each entry points at lexemes that exist.
pub open spec fn lexed_wf<'a>(
    ctx: &'a str,
    entries: Seq<PostLexEntry>,
    heads: Seq<WithSpan<'a, HeadLexeme>>,
    bodys: Seq<WithSpan<'a, BodyLexeme>>,
) -> bool {
    &&& forall|i: int| 0 <= i < heads.len() ==> span_ok(ctx, #[trigger] heads[i]) && head_ok(heads[i].data)
    &&& forall|i: int| 0 <= i < bodys.len() ==> span_ok(ctx, #[trigger] bodys[i])
    &&& forall|i: int| 0 <= i < entries.len() ==> entry_ok(#[trigger] entries[i], heads.len(), bodys.len())
}

pub open spec fn in_body(mode: State) -> bool {
    mode == State::Body || mode == State::BodyLiteral || mode == State::BodyBrackets
}

pub open spec fn model_inv<'a>(ctx: &'a str, m: LexModel<'a>) -> bool {
    &&& model_wf(ctx, m)
    &&& lexed_wf(ctx, m.entries, m.heads, m.bodys)
    &&& 0 <= m.head_start <= m.heads.len()
    &&& in_body(m.mode) ==> 0 <= m.head_start <= m.head_end <= m.heads.len() && 0 <= m.body_start <= m.bodys.len()
}

proof fn lemma_position_bound(list: Seq<Seq<char>>, w: Seq<char>)
    ensures
        position(list, w) matches Some(k) ==> 0 <= k < list.len(),
    decreases list.len(),
{
    if list.len() > 0 && list[0] != w {
        lemma_position_bound(list.drop_first(), w);
    }
}

proof fn lemma_push_key_inv<'a>(ctx: &'a str, m: LexModel<'a>, end: int)
    requires
        model_inv(ctx, m),
        m.cursor <= end <= ctx@.len(),
    ensures
        push_key(ctx, m, end) matches Ok(m2) ==> model_inv(ctx, m2) && m2.heads.len() == m.heads.len() + 1
            && m2.entries == m.entries && m2.bodys == m.bodys,
{
    lemma_position_bound(views(MODIFIERS@), ctx@.subrange(m.cursor, end));
    lemma_position_bound(views(KEYCODES@), ctx@.subrange(m.cursor, end));
    if let Ok(m2) = push_key(ctx, m, end) {
        assert(m2.heads.last().data == classify(ctx@.subrange(m.cursor, end)).unwrap());
        assert forall|i: int| 0 <= i < m2.heads.len() implies span_ok(ctx, #[trigger] m2.heads[i]) && head_ok(m2.heads[i].data) by {
            if i < m.heads.len() {
                assert(m2.heads[i] == m.heads[i]);
            }
        }
    }
}

proof fn lemma_step_inv<'a>(ctx: &'a str, m: LexModel<'a>)
    requires
        model_inv(ctx, m),
        m.pos < ctx@.len(),
    ensures
        step(ctx, m) matches Ok(m2) ==> (m2.heads.len() <= usize::MAX && m2.bodys.len() <= usize::MAX ==> model_inv(ctx, m2)),
{
    lemma_step_progress(ctx, m);
    let i = m.pos;
    lemma_push_key_inv(ctx, m, i);
    if let Ok(m2) = step(ctx, m) {
        if m2.heads.len() > usize::MAX || m2.bodys.len() > usize::MAX {
            return;
        }
        assert(m2.heads.len() >= m.heads.len());
        assert(m2.bodys.len() >= m.bodys.len());
        assert(m2.entries.len() <= m.entries.len() + 1);
        assert forall|j: int| 0 <= j < m2.heads.len() implies span_ok(ctx, #[trigger] m2.heads[j]) && head_ok(m2.heads[j].data) by {
            if j < m.heads.len() {
                assert(m2.heads[j] == m.heads[j]);
            } else if let Ok(m3) = push_key(ctx, m, i) {
                if j < m3.heads.len() {
                    assert(m2.heads[j] == m3.heads[j]);
                }
            }
        }
        assert forall|j: int| 0 <= j < m2.bodys.len() implies span_ok(ctx, #[trigger] m2.bodys[j]) by {
            if j < m.bodys.len() {
                assert(m2.bodys[j] == m.bodys[j]);
            }
        }
        assert forall|j: int| 0 <= j < m2.entries.len() implies entry_ok(#[trigger] m2.entries[j], m2.heads.len(), m2.bodys.len()) by {
            if j < m.entries.len() {
                assert(m2.entries[j] == m.entries[j]);
            } else {
                assert(m.mode == State::Body);
                let m3 = LexModel { bodys: m.bodys.push(span(ctx, BodyLexeme::Section, m.cursor, i + 1)), ..m };
                assert(m2.entries[j] == finished_entry(m3));
            }
        }
        assert(model_wf(ctx, m2));
        assert(m2.head_start <= m2.heads.len());
        assert(in_body(m2.mode) ==> 0 <= m2.head_start <= m2.head_end <= m2.heads.len());
        assert(in_body(m2.mode) ==> 0 <= m2.body_start <= m2.bodys.len());
    }
}

proof fn lemma_finish_inv<'a>(ctx: &'a str, m: LexModel<'a>)
    requires
        model_inv(ctx, m),
        m.pos == ctx@.len(),
    ensures
        finish(ctx, m) matches Ok(m2) ==> (m2.heads.len() <= usize::MAX && m2.bodys.len() <= usize::MAX ==> lexed_wf(ctx, m2.entries, m2.heads, m2.bodys)),
{
    if let Ok(m2) = finish(ctx, m) {
        if m2.heads.len() > usize::MAX || m2.bodys.len() > usize::MAX {
            return;
        }
        assert forall|j: int| 0 <= j < m2.bodys.len() implies span_ok(ctx, #[trigger] m2.bodys[j]) by {
            if j < m.bodys.len() {
                assert(m2.bodys[j] == m.bodys[j]);
            }
        }
        assert forall|j: int| 0 <= j < m2.entries.len() implies entry_ok(#[trigger] m2.entries[j], m2.heads.len(), m2.bodys.len()) by {
            if j < m.entries.len() {
                assert(m2.entries[j] == m.entries[j]);
            } else {
                let m3 = LexModel { bodys: m.bodys.push(span(ctx, BodyLexeme::Section, m.cursor, ctx@.len() as int)), ..m };
                assert(m2.entries[j] == finished_entry(m3));
            }
        }
    }
}

proof fn lemma_first_head_bound(c: Seq<char>, p: int)
    requires
        0 <= p,
    ensures
        first_head(c, p) matches Some(q) ==> p <= q < c.len(),
    decreases c.len() - p,
{
    if p < c.len() && !((c[p] == '|' || c[p] == '!') && (p == 0 || c[p - 1] == '\n')) {
        lemma_first_head_bound(c, p + 1);
    }
}

/****************************************************************************
 * Lexer
 ****************************************************************************/

/// Walks over the characters of the text and keeps the lexer's state.
pub struct FileIter<'a> {
    pub source: &'a str,
    pub chars: Vec<char>,
    pub state: State,
    pub placeholder: bool,
    pub rindex: usize,
    pub cursor: usize,
    pub head_start: usize,
    pub head_end: usize,
    pub body_start: usize,
}

/// The state of `fsm` with what `tokens` holds.
pub open spec fn model<'a>(fsm: FileIter<'a>, tokens: LexemeLists<'a>) -> LexModel<'a> {
    LexModel {
        mode: fsm.state,
        placeholder: fsm.placeholder,
        pos: fsm.rindex as int,
        cursor: fsm.cursor as int,
        head_start: fsm.head_start as int,
        head_end: fsm.head_end as int,
        body_start: fsm.body_start as int,
        entries: tokens.entries@,
        heads: tokens.heads@,
        bodys: tokens.bodys@,
    }
}

/// `err` is the error `e` in the text `ctx`.
pub open spec fn err_matches(err: MarkupError, ctx: &str, e: LexError) -> bool {
    &&& err.source@ == ctx@
    &&& err.range.0 == e.start
    &&& err.range.1 == e.end
    &&& err.message@ == e.message
}

impl<'a> FileIter<'a> {
    pub open spec fn wf(&self) -> bool {
        &&& self.chars@ == self.source@
        &&& self.cursor <= self.rindex <= self.chars@.len()
    }

    /// A walker at the start of `source`, in a head.
    pub fn new(source: &'a str) -> (fsm: Self)
        ensures
            fsm.wf(),
            fsm.source == source,
            fsm.state == State::Head,
            !fsm.placeholder,
            fsm.rindex == 0,
            fsm.cursor == 0,
            fsm.head_start == 0,
            fsm.head_end == 0,
            fsm.body_start == 0,
    {
        let chars = to_chars(source);
        FileIter {
            source,
            chars,
            state: State::Head,
            placeholder: false,
            rindex: 0,
            cursor: 0,
            head_start: 0,
            head_end: 0,
            body_start: 0,
        }
    }

    /// Moves the cursor to `index`, returning the range it passed over.
    pub fn cursor_move_to(&mut self, index: usize) -> (range: (usize, usize))
        requires
            old(self).cursor <= index,
        ensures
            range == (old(self).cursor, index),
            final(self).cursor == index,
            final(self).source == old(self).source,
            final(self).chars == old(self).chars,
            final(self).state == old(self).state,
            final(self).placeholder == old(self).placeholder,
            final(self).rindex == old(self).rindex,
            final(self).head_start == old(self).head_start,
            final(self).head_end == old(self).head_end,
            final(self).body_start == old(self).body_start,
    {
        let from = self.cursor;
        self.cursor = index;
        (from, index)
    }

    /// The number of characters from the cursor to `index`.
    pub fn cursor_width(&self, index: usize) -> (w: usize)
        requires
            self.cursor <= index,
        ensures
            w == index - self.cursor,
    {
        index - self.cursor
    }

    /// The character at `index`, if the text is that long.
    pub fn char_at(&self, index: usize) -> (c: Option<char>)
        requires
            self.wf(),
        ensures
            index < self.source@.len() ==> c == Some(self.source@[index as int]),
            index >= self.source@.len() ==> c is None,
    {
        if index < self.chars.len() {
            Some(self.chars[index])
        } else {
            None
        }
    }

    /// The position of the first character from `from` on that is not in `list`.
    pub fn eat_charlist(&self, from: usize) -> (p: usize)
        requires
            self.wf(),
            from <= self.source@.len(),
        ensures
            p == skip_separators(self.source@, from as int),
    {
        let mut p = from;
        while p < self.chars.len() && char_in(SEPARATOR.as_slice(), self.chars[p])
            invariant
                self.wf(),
                from <= p <= self.source@.len(),
                skip_separators(self.source@, p as int) == skip_separators(self.source@, from as int),
            decreases self.source@.len() - p,
        {
            p += 1;
        }
        p
    }

    /// An error over the characters `start..end`.
    pub fn report(&self, start: usize, end: usize, message: &str) -> (err: MarkupError)
        ensures
            err.source@ == self.source@,
            err.range == (start, end),
            err.message@ == message@,
    {
        MarkupError::from_range(self.source, (start, end), message.to_owned())
    }

    /// The next character and its position, moving past it.
    pub fn next(&mut self) -> (item: Option<(char, usize)>)
        requires
            old(self).wf(),
        ensures
            final(self).wf(),
            old(self).rindex < old(self).source@.len() ==> {
                &&& item == Some((old(self).source@[old(self).rindex as int], old(self).rindex))
                &&& final(self).rindex == old(self).rindex + 1
            },
            old(self).rindex >= old(self).source@.len() ==> item is None && final(self).rindex == old(self).rindex,
            final(self).source == old(self).source,
            final(self).chars == old(self).chars,
            final(self).state == old(self).state,
            final(self).placeholder == old(self).placeholder,
            final(self).cursor == old(self).cursor,
            final(self).head_start == old(self).head_start,
            final(self).head_end == old(self).head_end,
            final(self).body_start == old(self).body_start,
    {
        if self.rindex < self.chars.len() {
            let i = self.rindex;
            self.rindex = i + 1;
            Some((self.chars[i], i))
        } else {
            None
        }
    }
}

/// Whether `ch` is in `list`.
pub fn char_in(list: &[char], ch: char) -> (found: bool)
    ensures
        found == list@.contains(ch),
{
    let mut i: usize = 0;
    while i < list.len()
        invariant
            i <= list@.len(),
            forall|j: int| 0 <= j < i ==> list@[j] != ch,
        decreases list@.len() - i,
    {
        if list[i] == ch {
            return true;
        }
        i += 1;
    }
    false
}

/// Whether the characters `start..end` of `chars` spell `word`.
pub fn span_eq(chars: &Vec<char>, start: usize, end: usize, word: &str) -> (eq: bool)
    requires
        start <= end <= chars@.len(),
    ensures
        eq == (chars@.subrange(start as int, end as int) == word@),
{
    let len = word.unicode_len();
    if len != end - start {
        return false;
    }
    let mut i: usize = 0;
    while i < len
        invariant
            len == word@.len(),
            len == end - start,
            start <= end <= chars@.len(),
            i <= len,
            forall|j: int| 0 <= j < i ==> chars@[start + j] == word@[j],
        decreases len - i,
    {
        if chars[start + i] != word.get_char(i) {
            proof {
                assert(chars@.subrange(start as int, end as int)[i as int] != word@[i as int]);
            }
            return false;
        }
        i += 1;
    }
    proof {
        assert(chars@.subrange(start as int, end as int) =~= word@);
    }
    true
}

/// The index of the first name of `list` spelled by `chars[start..end]`.
fn find_name(chars: &Vec<char>, start: usize, end: usize, list: &[&str]) -> (r: Option<usize>)
    requires
        start <= end <= chars@.len(),
    ensures
        match position(views(list@), chars@.subrange(start as int, end as int)) {
            Some(k) => r == Some(k as usize) && 0 <= k < list@.len(),
            None => r is None,
        },
{
    let ghost w = chars@.subrange(start as int, end as int);
    let ghost names = views(list@);
    let mut i: usize = 0;
    while i < list.len()
        invariant
            start <= end <= chars@.len(),
            w == chars@.subrange(start as int, end as int),
            names == views(list@),
            i <= list@.len(),
            forall|j: int| 0 <= j < i ==> names[j] != w,
        decreases list@.len() - i,
    {
        if span_eq(chars, start, end, list[i]) {
            proof {
                lemma_position(names, w, i as int);
            }
            return Some(i);
        }
        i += 1;
    }
    proof {
        lemma_position(names, w, i as int);
    }
    None
}

/// What the word `chars[start..end]` of a head stands for.
pub fn classify_word(chars: &Vec<char>, start: usize, end: usize) -> (r: Option<HeadLexeme>)
    requires
        start <= end <= chars@.len(),
    ensures
        r == classify(chars@.subrange(start as int, end as int)),
        r matches Some(HeadLexeme::Mod(m)) ==> m < MODIFIERS@.len(),
        r matches Some(HeadLexeme::Key(k)) ==> k < KEYCODES@.len(),
{
    if start == end {
        return Some(HeadLexeme::Blank);
    }
    let mods = MODIFIERS.as_slice();
    let keys = KEYCODES.as_slice();
    assert(mods@ == MODIFIERS@ && keys@ == KEYCODES@);
    match find_name(chars, start, end, mods) {
        Some(m) => Some(HeadLexeme::Mod(m)),
        None => match find_name(chars, start, end, keys) {
            Some(k) => Some(HeadLexeme::Key(k)),
            None => None,
        },
    }
}

impl<'a> LexemeLists<'a> {
    /// The lexemes are spans of `ctx` and the entries point at lexemes that exist.
    pub open spec fn wf(&self, ctx: &'a str) -> bool {
        lexed_wf(ctx, self.entries@, self.heads@, self.bodys@)
    }

    /// Empty lists.
    pub fn new() -> (lists: Self)
        ensures
            lists.entries@ == Seq::<PostLexEntry>::empty(),
            lists.heads@ == Seq::<WithSpan<'a, HeadLexeme>>::empty(),
            lists.bodys@ == Seq::<WithSpan<'a, BodyLexeme>>::empty(),
    {
        LexemeLists { entries: Vec::new(), heads: Vec::new(), bodys: Vec::new() }
    }

    /// Pushes the word from the cursor of `fsm` up to `end` as a head lexeme,
    /// or fails if it names no key.
    pub fn head_push_key(&mut self, fsm: &FileIter<'a>, end: usize) -> (r: Result<(), MarkupError>)
        requires
            fsm.wf(),
            fsm.cursor <= end <= fsm.source@.len(),
        ensures
            final(self).entries@ == old(self).entries@,
            final(self).bodys@ == old(self).bodys@,
            match push_key(fsm.source, model(*fsm, *old(self)), end as int) {
                Ok(m) => r is Ok && final(self).heads@ == m.heads,
                Err(e) => r matches Err(err) && err_matches(err, fsm.source, e) && final(self).heads@ == old(self).heads@,
            },
    {
        match classify_word(&fsm.chars, fsm.cursor, end) {
            Some(lexeme) => {
                self.heads.push(WithSpan { data: lexeme, context: fsm.source, start: fsm.cursor, end });
                Ok(())
            },
            None => {
                let message = errors::head_invalid_key_message();
                Err(MarkupError::from_range(fsm.source, (fsm.cursor, end), message))
            },
        }
    }
}

/// The part of `step` for a state: what `fsm` and `tokens` become, or the error.
pub open spec fn step_done<'a>(
    spec_result: Result<LexModel<'a>, LexError>,
    r: Result<(), MarkupError>,
    ctx: &'a str,
    fsm: FileIter<'a>,
    tokens: LexemeLists<'a>,
) -> bool {
    match spec_result {
        Ok(m) => r is Ok && model(fsm, tokens) == m && fsm.wf() && fsm.source == ctx,
        Err(e) => r matches Err(err) && err_matches(err, ctx, e),
    }
}

fn lex_head<'a>(fsm: &mut FileIter<'a>, tokens: &mut LexemeLists<'a>) -> (r: Result<(), MarkupError>)
    requires
        old(fsm).wf(),
        old(fsm).rindex < old(fsm).source@.len(),
    ensures
        step_done(step_head(old(fsm).source, model(*old(fsm), *old(tokens))), r, old(fsm).source, *final(fsm), *final(tokens)),
{
    let ghost m = model(*fsm, *tokens);
    let i = fsm.rindex;
    let ch = fsm.chars[i];
    let n = fsm.chars.len();
    let close = if fsm.placeholder { '!' } else { '|' };
    let other = if fsm.placeholder { '|' } else { '!' };
    if ch == ',' {
        Err(fsm.report(i, i + 1, errors::HEAD_COMMA_OUTSIDE_BRACKETS))
    } else if ch == '\\' {
        Err(fsm.report(i, i + 1, errors::HEAD_NO_ESCAPING))
    } else if ch == close {
        tokens.head_push_key(fsm, i)?;
        fsm.state = State::Body;
        fsm.rindex = i + 1;
        fsm.cursor = i + 1;
        fsm.head_end = tokens.heads.len();
        fsm.body_start = tokens.bodys.len();
        Ok(())
    } else if ch == other {
        Err(fsm.report(i, i + 1, if fsm.placeholder { errors::BAR_IN_PLACEHOLDER } else { errors::EXCLAIM_IN_HEAD }))
    } else if ch == '{' {
        if i + 1 < n && fsm.chars[i + 1] == '{' {
            tokens.head_push_key(fsm, i)?;
            tokens.heads.push(WithSpan { data: HeadLexeme::ChoiceBegin, context: fsm.source, start: i, end: i + 2 });
            let p = fsm.eat_charlist(i + 2);
            fsm.state = State::HeadBrackets;
            fsm.rindex = p;
            fsm.cursor = p;
            proof { lemma_skip_separators_bounds(fsm.source@, i + 2); }
            Ok(())
        } else {
            Err(fsm.report(i + 1, if i + 1 < n { i + 2 } else { i + 1 }, errors::MISSING_LBRACKET))
        }
    } else if ch == ';' || char_in(SEPARATOR.as_slice(), ch) {
        tokens.head_push_key(fsm, i)?;
        if ch == ';' {
            tokens.heads.push(WithSpan { data: HeadLexeme::ChordDelim, context: fsm.source, start: i, end: i + 1 });
        }
        let p = fsm.eat_charlist(i + 1);
        fsm.rindex = p;
        fsm.cursor = p;
        proof { lemma_skip_separators_bounds(fsm.source@, i + 1); }
        Ok(())
    } else if fsm.cursor_width(i) > KEYSTR_UTF8_MAX_LEN {
        let message = errors::head_invalid_key_message();
        Err(MarkupError::from_range(fsm.source, (fsm.cursor, i), message))
    } else {
        fsm.rindex = i + 1;
        Ok(())
    }
}

fn lex_head_brackets<'a>(fsm: &mut FileIter<'a>, tokens: &mut LexemeLists<'a>) -> (r: Result<(), MarkupError>)
    requires
        old(fsm).wf(),
        old(fsm).rindex < old(fsm).source@.len(),
    ensures
        step_done(step_head_brackets(old(fsm).source, model(*old(fsm), *old(tokens))), r, old(fsm).source, *final(fsm), *final(tokens)),
{
    let i = fsm.rindex;
    let ch = fsm.chars[i];
    let n = fsm.chars.len();
    if ch == '|' {
        Err(fsm.report(i, i + 1, errors::HEAD_INVALID_CLOSE))
    } else if ch == '\\' {
        Err(fsm.report(i, i + 1, errors::HEAD_NO_ESCAPING))
    } else if ch == '}' {
        if i + 1 < n && fsm.chars[i + 1] == '}' {
            tokens.head_push_key(fsm, i)?;
            tokens.heads.push(WithSpan { data: HeadLexeme::ChoiceClose, context: fsm.source, start: i, end: i + 2 });
            let p = fsm.eat_charlist(i + 2);
            fsm.state = State::Head;
            fsm.rindex = p;
            fsm.cursor = p;
            proof { lemma_skip_separators_bounds(fsm.source@, i + 2); }
            Ok(())
        } else {
            Err(fsm.report(i + 1, if i + 1 < n { i + 2 } else { i + 1 }, errors::MISSING_RBRACKET))
        }
    } else if ch == ';' || ch == ',' || char_in(SEPARATOR.as_slice(), ch) {
        tokens.head_push_key(fsm, i)?;
        if ch == ';' {
            tokens.heads.push(WithSpan { data: HeadLexeme::ChordDelim, context: fsm.source, start: i, end: i + 1 });
        } else if ch == ',' {
            tokens.heads.push(WithSpan { data: HeadLexeme::ChoiceDelim, context: fsm.source, start: i, end: i + 1 });
        }
        let p = fsm.eat_charlist(i + 1);
        fsm.rindex = p;
        fsm.cursor = p;
        proof { lemma_skip_separators_bounds(fsm.source@, i + 1); }
        Ok(())
    } else if fsm.cursor_width(i) > KEYSTR_UTF8_MAX_LEN {
        let message = errors::head_invalid_key_message();
        Err(MarkupError::from_range(fsm.source, (fsm.cursor, i), message))
    } else {
        fsm.rindex = i + 1;
        Ok(())
    }
}

fn lex_body<'a>(fsm: &mut FileIter<'a>, tokens: &mut LexemeLists<'a>) -> (r: Result<(), MarkupError>)
    requires
        old(fsm).wf(),
        old(fsm).rindex < old(fsm).source@.len(),
    ensures
        step_done(step_body(old(fsm).source, model(*old(fsm), *old(tokens))), r, old(fsm).source, *final(fsm), *final(tokens)),
{
    let i = fsm.rindex;
    let ch = fsm.chars[i];
    let n = fsm.chars.len();
    if ch == '\n' && i + 1 < n && (fsm.chars[i + 1] == '|' || fsm.chars[i + 1] == '!') {
        tokens.bodys.push(WithSpan { data: BodyLexeme::Section, context: fsm.source, start: fsm.cursor, end: i + 1 });
        tokens.entries.push(PostLexEntry {
            is_placeholder: fsm.placeholder,
            head_start: fsm.head_start,
            head_end: fsm.head_end,
            body_start: fsm.body_start,
            body_end: tokens.bodys.len(),
        });
        fsm.state = State::Head;
        fsm.placeholder = fsm.chars[i + 1] == '!';
        fsm.head_start = tokens.heads.len();
        fsm.rindex = i + 2;
        fsm.cursor = i + 2;
        Ok(())
    } else if ch == '{' && i + 1 < n && i + 2 < n && fsm.chars[i + 1] == '{' && fsm.chars[i + 2] == '{' {
        tokens.bodys.push(WithSpan { data: BodyLexeme::Section, context: fsm.source, start: fsm.cursor, end: i });
        fsm.state = State::BodyLiteral;
        fsm.rindex = i + 3;
        fsm.cursor = i + 3;
        Ok(())
    } else if ch == '{' && i + 1 < n && fsm.chars[i + 1] == '{' {
        tokens.bodys.push(WithSpan { data: BodyLexeme::Section, context: fsm.source, start: fsm.cursor, end: i });
        tokens.bodys.push(WithSpan { data: BodyLexeme::ChoiceBegin, context: fsm.source, start: i, end: i + 2 });
        fsm.state = State::BodyBrackets;
        fsm.rindex = i + 2;
        fsm.cursor = i + 2;
        Ok(())
    } else {
        fsm.rindex = i + 1;
        Ok(())
    }
}

fn lex_escape<'a>(fsm: &mut FileIter<'a>, tokens: &mut LexemeLists<'a>) -> (r: Result<(), MarkupError>)
    requires
        old(fsm).wf(),
        old(fsm).rindex < old(fsm).source@.len(),
    ensures
        step_done(step_escape(old(fsm).source, model(*old(fsm), *old(tokens))), r, old(fsm).source, *final(fsm), *final(tokens)),
{
    let i = fsm.rindex;
    let n = fsm.chars.len();
    if i + 1 < n {
        tokens.bodys.push(WithSpan { data: BodyLexeme::Section, context: fsm.source, start: fsm.cursor, end: i });
        if fsm.chars[i + 1] != '\n' {
            tokens.bodys.push(WithSpan { data: BodyLexeme::Section, context: fsm.source, start: i + 1, end: i + 2 });
        }
        fsm.rindex = i + 2;
        fsm.cursor = i + 2;
    } else {
        fsm.rindex = i + 1;
    }
    Ok(())
}

fn lex_body_literal<'a>(fsm: &mut FileIter<'a>, tokens: &mut LexemeLists<'a>) -> (r: Result<(), MarkupError>)
    requires
        old(fsm).wf(),
        old(fsm).rindex < old(fsm).source@.len(),
    ensures
        step_done(step_body_literal(old(fsm).source, model(*old(fsm), *old(tokens))), r, old(fsm).source, *final(fsm), *final(tokens)),
{
    let i = fsm.rindex;
    let ch = fsm.chars[i];
    let n = fsm.chars.len();
    if ch == '\\' {
        lex_escape(fsm, tokens)
    } else if ch == '}' && i + 1 < n && i + 2 < n && fsm.chars[i + 1] == '}' && fsm.chars[i + 2] == '}' {
        tokens.bodys.push(WithSpan { data: BodyLexeme::Section, context: fsm.source, start: fsm.cursor, end: i });
        fsm.state = State::Body;
        fsm.rindex = i + 3;
        fsm.cursor = i + 3;
        Ok(())
    } else {
        fsm.rindex = i + 1;
        Ok(())
    }
}

fn lex_body_brackets<'a>(fsm: &mut FileIter<'a>, tokens: &mut LexemeLists<'a>) -> (r: Result<(), MarkupError>)
    requires
        old(fsm).wf(),
        old(fsm).rindex < old(fsm).source@.len(),
    ensures
        step_done(step_body_brackets(old(fsm).source, model(*old(fsm), *old(tokens))), r, old(fsm).source, *final(fsm), *final(tokens)),
{
    let i = fsm.rindex;
    let ch = fsm.chars[i];
    let n = fsm.chars.len();
    if ch == '}' && i + 1 < n && fsm.chars[i + 1] == '}' {
        tokens.bodys.push(WithSpan { data: BodyLexeme::Section, context: fsm.source, start: fsm.cursor, end: i });
        tokens.bodys.push(WithSpan { data: BodyLexeme::ChoiceClose, context: fsm.source, start: i, end: i + 2 });
        fsm.state = State::Body;
        fsm.rindex = i + 2;
        fsm.cursor = i + 2;
        Ok(())
    } else if ch == '\\' {
        lex_escape(fsm, tokens)
    } else if ch == ',' {
        tokens.bodys.push(WithSpan { data: BodyLexeme::Section, context: fsm.source, start: fsm.cursor, end: i });
        tokens.bodys.push(WithSpan { data: BodyLexeme::ChoiceDelim, context: fsm.source, start: i, end: i + 1 });
        fsm.rindex = i + 1;
        fsm.cursor = i + 1;
        Ok(())
    } else if ch == '\n' && i + 1 < n && fsm.chars[i + 1] == '|' {
        Err(fsm.report(i + 1, i + 2, errors::BODY_BRACKET_NO_NEWLINE_BAR))
    } else if ch == '{' && i + 1 < n && fsm.chars[i + 1] == '{' {
        Err(fsm.report(i, i + 2, errors::DOUBLE_LBRACKET_IN_BODY_PERMUTATION_GROUP))
    } else {
        fsm.rindex = i + 1;
        Ok(())
    }
}

/// Lexes one step at the position of `fsm`.
fn lex_syntax<'a>(fsm: &mut FileIter<'a>, tokens: &mut LexemeLists<'a>) -> (r: Result<(), MarkupError>)
    requires
        old(fsm).wf(),
        old(fsm).rindex < old(fsm).source@.len(),
    ensures
        step_done(step(old(fsm).source, model(*old(fsm), *old(tokens))), r, old(fsm).source, *final(fsm), *final(tokens)),
{
    match fsm.state {
        State::Head => lex_head(fsm, tokens),
        State::HeadBrackets => lex_head_brackets(fsm, tokens),
        State::Body => lex_body(fsm, tokens),
        State::BodyLiteral => lex_body_literal(fsm, tokens),
        State::BodyBrackets => lex_body_brackets(fsm, tokens),
    }
}

/// Where the lexer starts reading: right after the `|` or `!` that opens the first entry.
pub open spec fn lex_offset(c: Seq<char>) -> int {
    match first_head(c, 0) {
        Some(p) => p + 1,
        None => 0,
    }
}

/// `err` reports `e` over the text that the lexer reads: the text after the
/// first entry's opening `|` or `!`, with positions counted from there.
pub open spec fn lex_error_reported(err: MarkupError, filestr: Seq<char>, e: LexError) -> bool {
    let off = lex_offset(filestr);
    &&& err.source@ == filestr.subrange(off, filestr.len() as int)
    &&& err.range.0 == e.start - off
    &&& err.range.1 == e.end - off
    &&& err.message@ == e.message
}

/// The error `err` over `filestr`, moved to the text from `off` on.
fn error_from(err: MarkupError, filestr: &str, off: usize) -> (moved: MarkupError)
    requires
        err.source@ == filestr@,
        off <= err.range.0 <= err.range.1 <= filestr@.len(),
    ensures
        moved.source@ == filestr@.subrange(off as int, filestr@.len() as int),
        moved.range.0 == err.range.0 - off,
        moved.range.1 == err.range.1 - off,
        moved.message@ == err.message@,
{
    let rest = filestr.substring_char(off, filestr.unicode_len());
    MarkupError::from_range(rest, (err.range.0 - off, err.range.1 - off), err.message)
}

/// Splits `filestr` into the lexemes of its entries. Errors point into the
/// text after the `|` or `!` that opens the first entry.
pub fn process<'a>(filestr: &'a str) -> (res: Result<LexemeLists<'a>, MarkupError>)
    ensures
        match lex_spec(filestr) {
            Ok(m) => res matches Ok(l) && l.entries@ == m.entries && l.heads@ == m.heads && l.bodys@ == m.bodys,
            Err(e) => res matches Err(err) && lex_error_reported(err, filestr@, e),
        },
        res matches Ok(l) ==> l.wf(filestr),
{
    let mut fsm = FileIter::new(filestr);
    let mut tokens = LexemeLists::new();
    let n = fsm.chars.len();

    // Skip until the first '|' or '!' at the beginning of a line
    let mut p: usize = 0;
    while p < n && !((fsm.chars[p] == '|' || fsm.chars[p] == '!') && (p == 0 || fsm.chars[p - 1] == '\n'))
        invariant
            fsm.wf(),
            fsm.source == filestr,
            n == filestr@.len(),
            p <= n,
            first_head(filestr@, p as int) == first_head(filestr@, 0),
        decreases n - p,
    {
        p += 1;
    }
    if p == n {
        return Ok(tokens);
    }
    fsm.placeholder = fsm.chars[p] == '!';
    fsm.rindex = p + 1;
    fsm.cursor = p + 1;
    let ghost start = initial(filestr, p as int);
    assert(model(fsm, tokens) == start);
    assert(model_inv(filestr, start));
    assert(lex_offset(filestr@) == p + 1);

    while fsm.rindex < n
        invariant
            fsm.wf(),
            fsm.source == filestr,
            n == filestr@.len(),
            lex_spec(filestr) == run(filestr, model(fsm, tokens)),
            model_inv(filestr, model(fsm, tokens)),
            p < n,
            lex_offset(filestr@) == p + 1,
            p + 1 <= fsm.cursor,
        decreases n - fsm.rindex,
    {
        let ghost m = model(fsm, tokens);
        proof {
            lemma_step_progress(filestr, m);
            lemma_step_inv(filestr, m);
            lemma_step_bounds(filestr, m);
            lemma_run_err_bounds(filestr, m, p + 1);
        }
        match lex_syntax(&mut fsm, &mut tokens) {
            Ok(()) => {
                proof {
                    assert(tokens.heads@.len() == tokens.heads.len());
                    assert(tokens.bodys@.len() == tokens.bodys.len());
                }
            },
            Err(err) => {
                return Err(error_from(err, filestr, p + 1));
            },
        }
    }

    proof { lemma_finish_inv(filestr, model(fsm, tokens)); }
    match fsm.state {
        State::Body => {
            tokens.bodys.push(WithSpan { data: BodyLexeme::Section, context: fsm.source, start: fsm.cursor, end: n });
            tokens.entries.push(PostLexEntry {
                is_placeholder: fsm.placeholder,
                head_start: fsm.head_start,
                head_end: fsm.head_end,
                body_start: fsm.body_start,
                body_end: tokens.bodys.len(),
            });
            Ok(tokens)
        },
        State::Head => Err(error_from(fsm.report(n, n, if fsm.placeholder {
            errors::END_BEFORE_PLACEHOLDER_CLOSE
        } else {
            errors::END_BEFORE_HEAD_CLOSE
        }), filestr, p + 1)),
        State::HeadBrackets => Err(error_from(fsm.report(n, n, errors::END_BEFORE_HEAD_CLOSE), filestr, p + 1)),
        State::BodyLiteral => Err(error_from(fsm.report(n, n, errors::UNFINISHED_LITERAL), filestr, p + 1)),
        State::BodyBrackets => Err(error_from(fsm.report(n, n, errors::END_BEFORE_BRACKET_CLOSE), filestr, p + 1)),
    }
}

} // verus!
