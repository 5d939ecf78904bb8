use vstd::prelude::*;

use vstd::string::StrSliceExecFns;
use unicode_width::UnicodeWidthStr;

use crate::structs::WithSpan;
use crate::templates::{Consumer, PreallocLen, PreallocPush};
use crate::text::{push_char, push_str};

verus! {

/// An error in the markup: the text it was found in, the characters
/// `range.0..range.1` of that text that it points at, and the message.
#[derive(Debug)]
pub struct MarkupError {
    pub source: String,
    pub range: (usize, usize),
    pub message: String,
}

impl MarkupError {
    /// An error over the characters `range` of `source`.
    pub fn from_range(source: &str, range: (usize, usize), message: String) -> (err: Self)
        ensures
            err.source@ == source@,
            err.range == range,
            err.message@ == message@,
    {
        MarkupError { source: source.to_owned(), range, message }
    }

    /// An error over the text covered by `span`.
    pub fn from_str<'a>(context: &'a str, span: &WithSpan<'a, ()>, message: String) -> (err: Self)
        ensures
            err.source@ == context@,
            err.range == (span.start, span.end),
            err.message@ == message@,
    {
        MarkupError { source: context.to_owned(), range: (span.start, span.end), message }
    }

    /// An error from the start of `from` to the end of `till_inclusive`.
    pub fn from_span_over<T>(from: &WithSpan<T>, till_inclusive: &WithSpan<T>, message: String) -> (err: Self)
        ensures
            err.source@ == from.context@,
            err.range == (from.start, till_inclusive.end),
            err.message@ == message@,
    {
        MarkupError { source: from.context.to_owned(), range: (from.start, till_inclusive.end), message }
    }
}

/// The most columns of a row that an error would show, were rows cut.
pub const DISPLAY_LIMIT: usize = 20;
/// What a cut row would end with.
pub const ELLIPSIS: &'static str = " ...";

/****************************************************************************
 * Numbers and padding
 ****************************************************************************/

/// The digits `'0'..'9'`, by value.
pub const DIGITS: [char; 10] = ['0', '1', '2', '3', '4', '5', '6', '7', '8', '9'];

/// The base-10 digits of `n`, most significant first.
pub open spec fn decimal(n: nat) -> Seq<char>
    decreases n,
{
    if n < 10 {
        seq![DIGITS@[n as int]]
    } else {
        decimal(n / 10).push(DIGITS@[(n % 10) as int])
    }
}

/// `c` repeated `n` times (none when `n` is negative).
pub open spec fn repeat(c: char, n: int) -> Seq<char> {
    Seq::new(if n < 0 { 0 } else { n as nat }, |i: int| c)
}

/// `s` followed by spaces up to `len` characters.
pub open spec fn padded(s: Seq<char>, len: int) -> Seq<char> {
    s + repeat(' ', len - s.len())
}

proof fn lemma_decimal_len(n: nat)
    ensures
        1 <= decimal(n).len(),
        n >= 1 ==> decimal(n).len() <= n,
    decreases n,
{
    if n >= 10 {
        lemma_decimal_len(n / 10);
    }
}

/// The number of base-10 digits of `num`.
pub fn count_digits(num: usize) -> (size: usize)
    ensures
        size == decimal(num as nat).len(),
{
    let ghost n0 = num as nat;
    proof { lemma_decimal_len(n0); }
    let mut num = num;
    let mut size: usize = 1;
    while num >= 10
        invariant
            1 <= size,
            decimal(n0).len() == size - 1 + decimal(num as nat).len(),
            n0 >= 1 ==> decimal(n0).len() <= n0,
            num <= n0,
            n0 <= usize::MAX,
        decreases num,
    {
        proof { lemma_decimal_len((num / 10) as nat); }
        num = num / 10;
        size += 1;
    }
    size
}

/// Appends the base-10 digits of `num`.
fn push_decimal(buffer: &mut String, num: usize)
    ensures
        final(buffer)@ == old(buffer)@ + decimal(num as nat),
    decreases num,
{
    if num >= 10 {
        push_decimal(buffer, num / 10);
    }
    push_char(buffer, DIGITS[num % 10]);
    proof {
        if num >= 10 {
            assert(decimal(num as nat) == decimal((num / 10) as nat).push(DIGITS@[(num % 10) as int]));
        }
    }
}

/// Appends `c` `n` times.
fn push_repeat(buffer: &mut String, c: char, n: usize)
    ensures
        final(buffer)@ == old(buffer)@ + repeat(c, n as int),
{
    let ghost start = buffer@;
    let mut k: usize = 0;
    while k < n
        invariant
            k <= n,
            buffer@ == start + repeat(c, k as int),
        decreases n - k,
    {
        push_char(buffer, c);
        assert(repeat(c, k + 1) =~= repeat(c, k as int).push(c));
        k += 1;
    }
}

/// Appends `to_pad`, then spaces up to `len` characters.
pub fn pad(buffer: &mut String, len: usize, to_pad: &str)
    requires
        to_pad@.len() <= len,
    ensures
        final(buffer)@ == old(buffer)@ + padded(to_pad@, len as int),
{
    push_str(buffer, to_pad);
    push_repeat(buffer, ' ', len - to_pad.unicode_len());
}

/// Appends the base-10 digits of `num`, then spaces up to `digit_len` characters.
pub fn push_num(buffer: &mut String, digit_len: usize, num: usize)
    requires
        decimal(num as nat).len() <= digit_len,
    ensures
        final(buffer)@ == old(buffer)@ + padded(decimal(num as nat), digit_len as int),
{
    push_decimal(buffer, num);
    let size = count_digits(num);
    push_repeat(buffer, ' ', digit_len - size);
}

/****************************************************************************
 * Lines and rows
 ****************************************************************************/

/// The lines of `s[start..]`, as `str::lines` gives them (a line ends at
/// `'\n'`, which with a `'\r'` before it is left out; an empty last line is
/// not counted), when the line being read started at `start` and `start..i`
/// holds no `'\n'`.
pub open spec fn lines_from(s: Seq<char>, start: int, i: int) -> Seq<(int, int)>
    decreases s.len() - i,
{
    if i >= s.len() {
        if start < s.len() { seq![(start, s.len() as int)] } else { Seq::empty() }
    } else if s[i] == '\n' {
        seq![if i > start && s[i - 1] == '\r' { (start, i - 1) } else { (start, i) }] + lines_from(s, i + 1, i + 1)
    } else {
        lines_from(s, start, i + 1)
    }
}

/// The lines of `s`: for each, the range of its characters.
pub open spec fn lines(s: Seq<char>) -> Seq<(int, int)> {
    lines_from(s, 0, 0)
}

/// The lines lie in order in the text, a `'\n'` after each but the last.
pub open spec fn lines_ordered(ls: Seq<(int, int)>, n: int) -> bool {
    &&& forall|k: int| 0 <= k < ls.len() ==> 0 <= (#[trigger] ls[k]).0 <= ls[k].1 <= n
    &&& forall|k: int| 0 <= k && k + 1 < ls.len() ==> (#[trigger] ls[k]).1 < ls[k + 1].0
}

proof fn lemma_lines_from(s: Seq<char>, start: int, i: int)
    requires
        0 <= start <= i <= s.len(),
    ensures
        lines_ordered(lines_from(s, start, i), s.len() as int),
        forall|k: int| 0 <= k < lines_from(s, start, i).len() ==> start <= (#[trigger] lines_from(s, start, i)[k]).0,
        i == start && i >= s.len() ==> lines_from(s, start, i).len() == 0,
        start < s.len() ==> lines_from(s, start, i).len() > 0,
    decreases s.len() - i,
{
    if i >= s.len() {
    } else if s[i] == '\n' {
        lemma_lines_from(s, i + 1, i + 1);
        let rest = lines_from(s, i + 1, i + 1);
        let all = lines_from(s, start, i);
        assert forall|k: int| 0 <= k < all.len() implies 0 <= (#[trigger] all[k]).0 <= all[k].1 <= s.len() && start <= all[k].0 by {
            if k > 0 {
                assert(all[k] == rest[k - 1]);
            }
        }
        assert forall|k: int| 0 <= k && k + 1 < all.len() implies (#[trigger] all[k]).1 < all[k + 1].0 by {
            assert(all[k + 1] == rest[k]);
            if k > 0 {
                assert(all[k] == rest[k - 1]);
            }
        }
    } else {
        lemma_lines_from(s, start, i + 1);
    }
}

/// Where line `j` would end, counting each line's characters and one for its `'\n'`.
pub open spec fn line_end(ls: Seq<(int, int)>, j: int) -> int
    decreases j + 1,
{
    if j < 0 {
        0
    } else {
        line_end(ls, j - 1) + (ls[j].1 - ls[j].0) + 1
    }
}

/// The row of `pos` among the first `n` lines: how many of them end at or
/// before it (before it, when `strict`).
pub open spec fn row_of(ls: Seq<(int, int)>, n: int, pos: int, strict: bool) -> int
    decreases n,
{
    if n <= 0 {
        0
    } else {
        row_of(ls, n - 1, pos, strict) + if (strict && pos > line_end(ls, n - 1)) || (!strict && pos >= line_end(ls, n - 1)) { 1int } else { 0 }
    }
}

proof fn lemma_line_end(ls: Seq<(int, int)>, j: int, n: int)
    requires
        lines_ordered(ls, n),
        0 <= j < ls.len(),
    ensures
        line_end(ls, j) <= ls[j].1 + 1,
    decreases j,
{
    assert(0 <= ls[j].0 <= ls[j].1);
    assert(line_end(ls, j - 1) == 0 || j > 0);
    if j > 0 {
        lemma_line_end(ls, j - 1, n);
        assert(ls[j - 1].1 < ls[j].0);
    }
}

/// The lines of a text without `'\r'` follow each other tightly: each starts
/// right after the `'\n'` that ends the one before.
proof fn lemma_lines_tight(s: Seq<char>, start: int, i: int)
    requires
        0 <= start <= i <= s.len(),
        forall|x: int| 0 <= x < s.len() ==> s[x] != '\r',
    ensures
        lines_from(s, start, i).len() > 0 ==> lines_from(s, start, i)[0].0 == start,
        forall|k: int| 0 < k < lines_from(s, start, i).len()
            ==> (#[trigger] lines_from(s, start, i)[k]).0 == lines_from(s, start, i)[k - 1].1 + 1,
    decreases s.len() - i,
{
    if i >= s.len() {
    } else if s[i] == '\n' {
        lemma_lines_tight(s, i + 1, i + 1);
        lemma_lines_from(s, i + 1, i + 1);
        let rest = lines_from(s, i + 1, i + 1);
        let all = lines_from(s, start, i);
        if i > start {
            assert(s[i - 1] != '\r');
        }
        assert(all[0] == (start, i));
        assert forall|k: int| 0 < k < all.len() implies (#[trigger] all[k]).0 == all[k - 1].1 + 1 by {
            assert(all[k] == rest[k - 1]);
            if k > 1 {
                assert(all[k - 1] == rest[k - 2]);
            }
        }
    } else {
        lemma_lines_tight(s, start, i + 1);
    }
}

/// The lines of `src` are tight and ordered (see `lemma_lines_tight`).
pub open spec fn tight(ls: Seq<(int, int)>) -> bool {
    &&& ls.len() > 0 ==> ls[0].0 == 0
    &&& forall|k: int| 0 < k < ls.len() ==> (#[trigger] ls[k]).0 == ls[k - 1].1 + 1
    &&& forall|k: int| 0 <= k < ls.len() ==> (#[trigger] ls[k]).0 <= ls[k].1
}

proof fn lemma_lines_of_text(src: Seq<char>)
    requires
        forall|x: int| 0 <= x < src.len() ==> src[x] != '\r',
    ensures
        tight(lines(src)),
        lines_ordered(lines(src), src.len() as int),
{
    lemma_lines_tight(src, 0, 0);
    lemma_lines_from(src, 0, 0);
}

proof fn lemma_tight_before(ls: Seq<(int, int)>, j: int, r: int)
    requires
        tight(ls),
        0 <= j < r < ls.len(),
    ensures
        ls[j].1 + 1 <= ls[r].0,
    decreases r - j,
{
    assert(ls[j + 1].0 == ls[j].1 + 1);
    if r > j + 1 {
        lemma_tight_before(ls, j + 1, r);
    }
}

proof fn lemma_tight_after(ls: Seq<(int, int)>, r: int, j: int)
    requires
        tight(ls),
        0 <= r < j < ls.len(),
    ensures
        ls[r].1 < ls[j].1,
    decreases j - r,
{
    assert(ls[r + 1].0 == ls[r].1 + 1);
    if j > r + 1 {
        lemma_tight_after(ls, r + 1, j);
    }
}

proof fn lemma_line_end_tight(ls: Seq<(int, int)>, j: int)
    requires
        tight(ls),
        0 <= j < ls.len(),
    ensures
        line_end(ls, j) == ls[j].1 + 1,
    decreases j,
{
    assert(line_end(ls, -1) == 0);
    if j > 0 {
        lemma_line_end_tight(ls, j - 1);
        assert(ls[j].0 == ls[j - 1].1 + 1);
    } else {
        assert(ls[0].0 == 0);
    }
}

/// In a text without `'\r'`, the position that the rows are counted against
/// for line `j` is the one just after its `'\n'`: the start of the next line.
pub proof fn lemma_line_end_after_newline(src: Seq<char>, j: int)
    requires
        forall|x: int| 0 <= x < src.len() ==> src[x] != '\r',
        0 <= j < lines(src).len(),
    ensures
        line_end(lines(src), j) == lines(src)[j].1 + 1,
        j + 1 < lines(src).len() ==> line_end(lines(src), j) == lines(src)[j + 1].0,
{
    lemma_lines_of_text(src);
    lemma_line_end_tight(lines(src), j);
}

proof fn lemma_row_of_in_line(ls: Seq<(int, int)>, n: int, pos: int, strict: bool, r: int)
    requires
        tight(ls),
        0 <= r < ls.len(),
        0 <= n <= ls.len(),
        ls[r].0 <= pos <= ls[r].1,
        strict ==> r == 0 || pos > ls[r].0,
    ensures
        row_of(ls, n, pos, strict) == if n <= r { n } else { r },
    decreases n,
{
    if n > 0 {
        lemma_row_of_in_line(ls, n - 1, pos, strict, r);
        lemma_line_end_tight(ls, n - 1);
        if n - 1 < r {
            lemma_tight_before(ls, n - 1, r);
            if n - 1 < r - 1 {
                lemma_tight_before(ls, n - 1, r - 1);
            }
        } else if n - 1 > r {
            lemma_tight_after(ls, r, n - 1);
        }
    }
}

/// An error whose range lies within one line `r` of a text without `'\r'`
/// is drawn on that row alone. (An empty range at the very start of a line
/// other than the first is counted with the line before, as the rows count
/// a position after a line's end only when past it.)
pub proof fn lemma_range_in_one_row(src: Seq<char>, range: (usize, usize), r: int)
    requires
        forall|x: int| 0 <= x < src.len() ==> src[x] != '\r',
        0 <= r < lines(src).len(),
        lines(src)[r].0 <= range.0 <= range.1 <= lines(src)[r].1,
        r == 0 || lines(src)[r].0 < range.1,
    ensures
        first_row(src, range) == r,
        last_row(src, range) == r,
        renderable(src, range),
{
    lemma_lines_of_text(src);
    let ls = lines(src);
    lemma_row_of_in_line(ls, ls.len() - 1, range.0 as int, false, r);
    lemma_row_of_in_line(ls, ls.len() - 1, range.1 as int, true, r);
}

/// The rows (counted from 0) of the first and of the last character of `range`.
fn convert_to_row_indices(ls: &Vec<(usize, usize)>, range: (usize, usize), n: Ghost<int>) -> (rows: (usize, usize))
    requires
        range.0 <= range.1,
        ls@.len() > 0,
        lines_ordered(crate::keyspaces::ints(ls@), n@),
    ensures
        rows.0 == row_of(crate::keyspaces::ints(ls@), ls@.len() - 1, range.0 as int, false),
        rows.1 == row_of(crate::keyspaces::ints(ls@), ls@.len() - 1, range.1 as int, true),
        rows.0 < ls@.len(),
        rows.1 < ls@.len(),
{
    let ghost li = crate::keyspaces::ints(ls@);
    let (begin, close) = range;
    let count = ls.len();
    let mut i: usize = 0;
    let mut r0: usize = 0;
    let mut r1: usize = 0;
    let mut j: usize = 0;
    while j < count - 1
        invariant
            li == crate::keyspaces::ints(ls@),
            lines_ordered(li, n@),
            count == ls@.len(),
            count > 0,
            j < count,
            i == line_end(li, j - 1),
            r0 == row_of(li, j as int, begin as int, false),
            r1 == row_of(li, j as int, close as int, true),
            r0 <= j,
            r1 <= j,
        decreases count - 1 - j,
    {
        let (a, b) = ls[j];
        assert(li[j as int] == (a as int, b as int));
        proof {
            lemma_line_end(li, j as int, n@);
            assert(li[j as int].1 < li[j + 1].0);
            assert(li[j + 1].0 <= n@);
        }
        let next_line = i + (b - a) + 1;
        if begin >= next_line {
            r0 += 1;
        }
        if close > next_line {
            r1 += 1;
        }
        i = next_line;
        j += 1;
    }
    (r0, r1)
}

/// The lines of the characters `chars`.
fn line_ranges(chars: &Vec<char>) -> (ls: Vec<(usize, usize)>)
    ensures
        crate::keyspaces::ints(ls@) == lines(chars@),
{
    let ghost s = chars@;
    let n = chars.len();
    let mut ls: Vec<(usize, usize)> = Vec::new();
    let mut start: usize = 0;
    let mut i: usize = 0;
    while i < n
        invariant
            s == chars@,
            n == s.len(),
            start <= i <= n,
            crate::keyspaces::ints(ls@) + lines_from(s, start as int, i as int) == lines(s),
        decreases n - i,
    {
        if chars[i] == '\n' {
            let end = if i > start && chars[i - 1] == '\r' { i - 1 } else { i };
            let ghost before = crate::keyspaces::ints(ls@);
            ls.push((start, end));
            proof {
                assert(crate::keyspaces::ints(ls@) =~= before.push((start as int, end as int)));
                assert(before + (seq![(start as int, end as int)] + lines_from(s, i + 1, i + 1))
                    =~= before.push((start as int, end as int)) + lines_from(s, i + 1, i + 1));
            }
            start = i + 1;
        }
        i += 1;
    }
    if start < n {
        let ghost before = crate::keyspaces::ints(ls@);
        ls.push((start, n));
        proof {
            assert(crate::keyspaces::ints(ls@) =~= before.push((start as int, n as int)));
            assert(before + seq![(start as int, n as int)] =~= before.push((start as int, n as int)));
        }
    } else {
        assert(lines_from(s, start as int, i as int) =~= Seq::<(int, int)>::empty());
        assert(crate::keyspaces::ints(ls@) + Seq::<(int, int)>::empty() =~= crate::keyspaces::ints(ls@));
    }
    ls
}

/****************************************************************************
 * Rendering
 ****************************************************************************/

/// The display width of a text in columns, as the unicode-width crate
/// computes it for CJK contexts.
pub uninterp spec fn str_width_cjk(s: Seq<char>) -> usize;

/// Calls `UnicodeWidthStr::width_cjk` of the unicode-width crate: the width of
/// `s` in columns, with characters of ambiguous width counted as two. Its
/// result depends on the characters of `s` alone, and is named `str_width_cjk`;
/// nothing else is claimed of it.
#[verifier::external_body]
fn width_cjk(s: &str) -> (w: usize)
    ensures
        w == str_width_cjk(s@),
{
    UnicodeWidthStr::width_cjk(s)
}

pub open spec fn sat_add(a: int, b: int) -> int {
    if a + b > usize::MAX { usize::MAX as int } else { a + b }
}

pub open spec fn sat_sub(a: int, b: int) -> int {
    if a >= b { a - b } else { 0 }
}

/// The columns before the character `index` of the text, on the line `l`
/// (one column for each character past the end of the line).
pub open spec fn offset_width(src: Seq<char>, l: (int, int), index: int) -> int {
    let offset = index - l.0;
    let len = l.1 - l.0;
    if offset < len {
        str_width_cjk(src.subrange(l.0, l.0 + offset)) as int
    } else {
        sat_add(str_width_cjk(src.subrange(l.0, l.1)) as int, offset - len)
    }
}

/// The rows `from..=to` of the text, each after its number (from 1).
pub open spec fn source_rows(src: Seq<char>, ls: Seq<(int, int)>, from: int, to: int, digits: int) -> Seq<char>
    decreases to - from + 1,
{
    if to < from {
        Seq::empty()
    } else {
        source_rows(src, ls, from, to - 1, digits) + padded(decimal((to + 1) as nat), digits) + " | "@
            + src.subrange(ls[to].0, ls[to].1) + seq!['\n']
    }
}

pub open spec fn first_row(src: Seq<char>, range: (usize, usize)) -> int {
    row_of(lines(src), lines(src).len() - 1, range.0 as int, false)
}

pub open spec fn last_row(src: Seq<char>, range: (usize, usize)) -> int {
    row_of(lines(src), lines(src).len() - 1, range.1 as int, true)
}

/// The error can be drawn: its range is in order, the text has a line, and
/// the rows found for the range start at or before its ends.
pub open spec fn renderable(src: Seq<char>, range: (usize, usize)) -> bool {
    &&& range.0 <= range.1
    &&& lines(src).len() > 0
    &&& first_row(src, range) <= last_row(src, range)
    &&& range.0 >= lines(src)[first_row(src, range)].0
    &&& range.1 >= lines(src)[last_row(src, range)].0
}

/// What comes above the rows: a margin line, then, for several rows, markers
/// over the part of the first row that the range covers.
pub open spec fn above_rows(digits: int, single: bool, first_spaces: int, first_marker: int) -> Seq<char> {
    repeat(' ', digits) + " |\n"@
        + if single { Seq::empty() } else { repeat(' ', digits) + " | "@ + repeat(' ', first_spaces) + repeat('v', first_marker) + seq!['\n'] }
}

/// What comes below the rows: markers under the range (under all of it for
/// one row, under the start of the last row for several), a margin line,
/// and the message.
pub open spec fn below_rows(digits: int, single: bool, first_spaces: int, first_marker: int, after_marker: int, message: Seq<char>) -> Seq<char> {
    (if single {
        repeat(' ', digits) + " | "@ + repeat(' ', first_spaces) + repeat('^', first_marker) + seq!['\n']
    } else {
        repeat(' ', digits) + " | "@ + repeat('^', after_marker) + seq!['\n']
    }) + repeat(' ', digits) + " |\n"@ + repeat(' ', digits) + " = "@ + message
}

/// The error drawn under the rows of the text that it covers: a margin as
/// wide as the last row's number, markers under (or, for several rows, also
/// above) the characters of the range, and the message.
pub open spec fn rendered(src: Seq<char>, range: (usize, usize), message: Seq<char>) -> Seq<char> {
    let ls = lines(src);
    let begin = range.0 as int;
    let close = range.1 as int;
    let r0 = first_row(src, range);
    let r1 = last_row(src, range);
    let single = r0 == r1;
    let first_spaces = offset_width(src, ls[r0], begin);
    let first_marker = if single {
        sat_sub(offset_width(src, ls[r0], close), first_spaces)
    } else {
        sat_add(sat_sub(str_width_cjk(src.subrange(ls[r0].0, ls[r0].1)) as int, first_spaces), 1)
    };
    let after_marker = offset_width(src, ls[r1], close);
    rendered_with(src, range, message, first_spaces, first_marker, after_marker)
}

/// The error drawn with the given widths: `first_spaces` columns before the
/// range on its first row, `first_marker` markers there, and `after_marker`
/// columns before the end of the range on its last row.
pub open spec fn rendered_with(
    src: Seq<char>,
    range: (usize, usize),
    message: Seq<char>,
    first_spaces: int,
    first_marker: int,
    after_marker: int,
) -> Seq<char> {
    let r0 = first_row(src, range);
    let r1 = last_row(src, range);
    let digits = decimal((r1 + 1) as nat).len() as int;
    let single = r0 == r1;
    above_rows(digits, single, first_spaces, first_marker)
        + source_rows(src, lines(src), r0, r1, digits)
        + below_rows(digits, single, first_spaces, first_marker, after_marker, message)
}

/// The columns before the character `index` on the line `l` of `src`.
fn line_offset_to_width(src: &str, l: (usize, usize), index: usize) -> (w: usize)
    requires
        l.0 <= l.1 <= src@.len(),
        l.0 <= index,
    ensures
        w == offset_width(src@, (l.0 as int, l.1 as int), index as int),
{
    let offset = index - l.0;
    let len = l.1 - l.0;
    if offset < len {
        width_cjk(src.substring_char(l.0, l.0 + offset))
    } else {
        width_cjk(src.substring_char(l.0, l.1)).saturating_add(offset - len)
    }
}

/// Appends what comes above the rows.
fn push_above(buffer: &mut String, digits: usize, single: bool, first_spaces: usize, first_marker: usize)
    ensures
        final(buffer)@ == old(buffer)@ + above_rows(digits as int, single, first_spaces as int, first_marker as int),
{
    let ghost start = buffer@;
    push_repeat(buffer, ' ', digits);
    push_str(buffer, " |\n");
    if !single {
        push_repeat(buffer, ' ', digits);
        push_str(buffer, " | ");
        push_repeat(buffer, ' ', first_spaces);
        push_repeat(buffer, 'v', first_marker);
        push_char(buffer, '\n');
    }
    assert(buffer@ =~= start + above_rows(digits as int, single, first_spaces as int, first_marker as int));
}

/// Appends what comes below the rows.
fn push_below(buffer: &mut String, digits: usize, single: bool, first_spaces: usize, first_marker: usize, after_marker: usize, message: &str)
    ensures
        final(buffer)@ == old(buffer)@ + below_rows(digits as int, single, first_spaces as int, first_marker as int, after_marker as int, message@),
{
    let ghost start = buffer@;
    if single {
        push_repeat(buffer, ' ', digits);
        push_str(buffer, " | ");
        push_repeat(buffer, ' ', first_spaces);
        push_repeat(buffer, '^', first_marker);
        push_char(buffer, '\n');
    } else {
        push_repeat(buffer, ' ', digits);
        push_str(buffer, " | ");
        push_repeat(buffer, '^', after_marker);
        push_char(buffer, '\n');
    }
    push_repeat(buffer, ' ', digits);
    push_str(buffer, " |\n");
    push_repeat(buffer, ' ', digits);
    push_str(buffer, " = ");
    push_str(buffer, message);
    assert(buffer@ =~= start + below_rows(digits as int, single, first_spaces as int, first_marker as int, after_marker as int, message@));
}

/// Appends the rows `r0..=r1` of `src`, each after its number.
fn push_source_rows(buffer: &mut String, src: &str, ls: &Vec<(usize, usize)>, r0: usize, r1: usize, row_digit_len: usize)
    requires
        r0 <= r1 < ls@.len(),
        r1 < usize::MAX,
        lines_ordered(crate::keyspaces::ints(ls@), src@.len() as int),
        row_digit_len == decimal((r1 + 1) as nat).len(),
    ensures
        final(buffer)@ == old(buffer)@ + source_rows(src@, crate::keyspaces::ints(ls@), r0 as int, r1 as int, row_digit_len as int),
{
    let ghost head = buffer@;
    let ghost li = crate::keyspaces::ints(ls@);
    let ghost s = src@;
    let mut row = r0;
    assert(buffer@ =~= head + source_rows(s, li, r0 as int, row - 1, row_digit_len as int));
    while row <= r1
        invariant
            r0 <= row <= r1 + 1,
            r1 < ls@.len(),
            r1 < usize::MAX,
            li == crate::keyspaces::ints(ls@),
            lines_ordered(li, s.len() as int),
            s == src@,
            row_digit_len == decimal((r1 + 1) as nat).len(),
            buffer@ == head + source_rows(s, li, r0 as int, row - 1, row_digit_len as int),
        decreases r1 + 1 - row,
    {
        let l = ls[row];
        assert(li[row as int] == (l.0 as int, l.1 as int));
        proof {
            lemma_decimal_grows((row + 1) as nat, (r1 + 1) as nat);
        }
        push_num(buffer, row_digit_len, row + 1);
        push_str(buffer, " | ");
        push_str(buffer, src.substring_char(l.0, l.1));
        push_char(buffer, '\n');
        proof {
            assert(buffer@ =~= head + source_rows(s, li, r0 as int, row as int, row_digit_len as int));
        }
        row += 1;
    }
}

impl MarkupError {
    /// Whether the error can be drawn (see `renderable`).
    pub fn is_renderable(&self) -> (ok: bool)
        ensures
            ok == renderable(self.source@, self.range),
    {
        let src = self.source.as_str();
        let ghost s = src@;
        let chars = crate::text::to_chars(src);
        let ls = line_ranges(&chars);
        proof {
            lemma_lines_from(s, 0, 0);
        }
        if self.range.0 > self.range.1 || ls.len() == 0 {
            return false;
        }
        let (r0, r1) = convert_to_row_indices(&ls, self.range, Ghost(s.len() as int));
        let ghost li = lines(s);
        assert(li[r0 as int] == (ls@[r0 as int].0 as int, ls@[r0 as int].1 as int));
        assert(li[r1 as int] == (ls@[r1 as int].0 as int, ls@[r1 as int].1 as int));
        r0 <= r1 && self.range.0 >= ls[r0].0 && self.range.1 >= ls[r1].0
    }

    /// The error drawn under the rows of its text that it covers, with its message.
    pub fn to_string(&self) -> (text: String)
        requires
            renderable(self.source@, self.range),
        ensures
            text@ == rendered(self.source@, self.range, self.message@),
    {
        let src = self.source.as_str();
        let ghost s = src@;
        let chars = crate::text::to_chars(src);
        let ls = line_ranges(&chars);
        let ghost li = lines(s);
        proof {
            lemma_lines_from(s, 0, 0);
        }
        let (begin, close) = self.range;
        let (r0, r1) = convert_to_row_indices(&ls, self.range, Ghost(s.len() as int));
        assert(r0 == first_row(s, self.range) && r1 == last_row(s, self.range));
        let is_single_line = r0 == r1;
        let begin_line = ls[r0];
        let close_line = ls[r1];
        assert(li[r0 as int] == (begin_line.0 as int, begin_line.1 as int));
        assert(li[r1 as int] == (close_line.0 as int, close_line.1 as int));
        let first_spaces = line_offset_to_width(src, begin_line, begin);
        let first_marker = if is_single_line {
            line_offset_to_width(src, begin_line, close).saturating_sub(first_spaces)
        } else {
            width_cjk(src.substring_char(begin_line.0, begin_line.1)).saturating_sub(first_spaces).saturating_add(1)
        };
        let after_marker = line_offset_to_width(src, close_line, close);
        self.render_with_widths(first_spaces, first_marker, after_marker)
    }

    /// The error drawn with the widths that its range covers: `first_spaces`
    /// columns before it on its first row, `first_marker` markers there, and
    /// `after_marker` columns before its end on its last row.
    pub fn render_with_widths(&self, first_spaces: usize, first_marker: usize, after_marker: usize) -> (text: String)
        requires
            renderable(self.source@, self.range),
        ensures
            text@ == rendered_with(self.source@, self.range, self.message@, first_spaces as int, first_marker as int, after_marker as int),
    {
        let src = self.source.as_str();
        let ghost s = src@;
        let chars = crate::text::to_chars(src);
        let ls = line_ranges(&chars);
        proof {
            lemma_lines_from(s, 0, 0);
        }
        let (r0, r1) = convert_to_row_indices(&ls, self.range, Ghost(s.len() as int));
        assert(r0 == first_row(s, self.range) && r1 == last_row(s, self.range));
        let row_digit_len = count_digits(r1 + 1);
        let is_single_line = r0 == r1;
        let mut buffer = String::new();
        push_above(&mut buffer, row_digit_len, is_single_line, first_spaces, first_marker);
        push_source_rows(&mut buffer, src, &ls, r0, r1, row_digit_len);
        push_below(&mut buffer, row_digit_len, is_single_line, first_spaces, first_marker, after_marker, self.message.as_str());
        assert(buffer@ =~= rendered_with(s, self.range, self.message@, first_spaces as int, first_marker as int, after_marker as int));
        buffer
    }
}

proof fn lemma_decimal_grows(a: nat, b: nat)
    requires
        a <= b,
    ensures
        decimal(a).len() <= decimal(b).len(),
    decreases b,
{
    if b >= 10 {
        if a >= 10 {
            lemma_decimal_grows(a / 10, b / 10);
        } else {
            lemma_decimal_len(b / 10);
        }
    }
}

impl PreallocLen<()> for MarkupError {
    open spec fn ready(&self, extra: ()) -> bool {
        renderable(self.source@, self.range)
    }

    open spec fn writes(&self, extra: (), text: Seq<char>) -> bool {
        text == rendered(self.source@, self.range, self.message@)
    }

    fn len(&self, extra: ()) -> (n: usize) {
        let text = self.to_string();
        let n = text.as_str().unicode_len();
        assert(self.writes(extra, text@));
        n
    }
}

impl<U: Consumer> PreallocPush<(), U> for MarkupError {
    fn pipe(&self, extra: (), pipe: &mut U) {
        let text = self.to_string();
        pipe.consume(text.as_str());
        assert(self.writes(extra, text@));
    }
}

} // verus!
