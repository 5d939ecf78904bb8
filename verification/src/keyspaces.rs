//! Keyspaces: the states of a window manager that reads hotkeys chord by
//! chord. The keyspace titled by the chords typed so far holds one action per
//! chord that can come next: run a command, or go to a deeper keyspace.

use vstd::prelude::*;

use crate::parser::{
    chord_key, chord_keys, hotkey_le, is_bijection, is_prefix, lemma_hotkey_le_antisym, lemma_hotkey_le_total,
    lemma_hotkey_le_trans, lemma_prefix_le, permutes, ChordKey, ShortcutOwner,
};
use crate::structs::{Chord, Shortcut, WithSpan};

verus! {

/****************************************************************************
 * Token definitions
 ****************************************************************************/

/// A keyspace as stored: its title, and the range `action_start..action_end`
/// of its actions in the owner's list.
#[derive(Clone, Copy, Debug)]
pub struct KeyspaceRef<'parsemes, 'filestr> {
    pub title: &'parsemes [Chord<'filestr>],
    pub action_start: usize,
    pub action_end: usize,
}

/// What the last chord of a keyspace's title leads to: a deeper keyspace,
/// titled by the chords typed so far, or a command run by its shortcut.
#[derive(Clone, Copy, Debug)]
pub enum Action<'parsemes, 'filestr> {
    SetState(&'parsemes [Chord<'filestr>]),
    Command(Chord<'filestr>, Shortcut<'parsemes, 'filestr>),
}

/// The keyspaces of a list of shortcuts. `sorted` is that list without its
/// placeholders, sorted by hotkey, which the keyspaces were read from.
pub struct KeyspaceOwner<'parsemes, 'filestr> {
    pub keyspaces: Vec<KeyspaceRef<'parsemes, 'filestr>>,
    pub all_actions: Vec<Action<'parsemes, 'filestr>>,
    pub sorted: Ghost<Seq<Shortcut<'parsemes, 'filestr>>>,
}

/// A keyspace: its title (the chords typed to reach it) and its actions.
#[derive(Clone, Copy, Debug)]
pub struct Keyspace<'keyspaces, 'parsemes, 'filestr> {
    pub title: &'parsemes [Chord<'filestr>],
    pub actions: &'keyspaces [Action<'parsemes, 'filestr>],
}

/// Walks the keyspaces of an owner in order.
pub struct KeyspaceIter<'keyspaces, 'parsemes, 'filestr> {
    pub owner: &'keyspaces KeyspaceOwner<'parsemes, 'filestr>,
    pub index: usize,
}

/****************************************************************************
 * Specification
 ****************************************************************************/

/// An action as its contents: the title it leads to, or the chord that
/// triggers a command and the shortcut of that command.
pub enum ActionModel<'parsemes, 'filestr> {
    SetState(Seq<Chord<'filestr>>),
    Command(Chord<'filestr>, Shortcut<'parsemes, 'filestr>),
}

/// A keyspace as its contents: its title and the range of its actions.
pub struct KeyspaceModel<'filestr> {
    pub title: Seq<Chord<'filestr>>,
    pub start: int,
    pub end: int,
}

/// The state of the construction after some columns: the partitions of the
/// sorted shortcuts left to refine, the actions and the keyspaces so far.
pub struct KsState<'parsemes, 'filestr> {
    pub todo: Seq<(int, int)>,
    pub actions: Seq<ActionModel<'parsemes, 'filestr>>,
    pub keyspaces: Seq<KeyspaceModel<'filestr>>,
}

impl<'parsemes, 'filestr> Action<'parsemes, 'filestr> {
    pub open spec fn view(&self) -> ActionModel<'parsemes, 'filestr> {
        match *self {
            Action::SetState(title) => ActionModel::SetState(title@),
            Action::Command(trigger, shortcut) => ActionModel::Command(trigger, shortcut),
        }
    }
}

impl<'parsemes, 'filestr> KeyspaceRef<'parsemes, 'filestr> {
    pub open spec fn view(&self) -> KeyspaceModel<'filestr> {
        KeyspaceModel { title: self.title@, start: self.action_start as int, end: self.action_end as int }
    }
}

/// The chords of a shortcut, as the order of hotkeys sees them.
pub open spec fn hk(s: Shortcut) -> Seq<ChordKey> {
    chord_keys(s.hotkey@)
}

/// `ss` is sorted by hotkey.
pub open spec fn sorted_shortcuts(ss: Seq<Shortcut>) -> bool {
    forall|i: int, j: int| 0 <= i < j < ss.len() ==> hotkey_le(hk(#[trigger] ss[i]), hk(#[trigger] ss[j]))
}

/// The first index in `i..hi` of a shortcut with more than `c` chords, or `hi`.
pub open spec fn first_long(ss: Seq<Shortcut>, i: int, hi: int, c: int) -> int
    decreases hi - i,
{
    if i >= hi || ss[i].hotkey@.len() > c {
        i
    } else {
        first_long(ss, i + 1, hi, c)
    }
}

/// The runs of `start..hi` whose shortcuts share chord `c`, when the shortcuts
/// `start..j` have been seen to share it.
pub open spec fn runs_from(ss: Seq<Shortcut>, start: int, j: int, hi: int, c: int) -> Seq<(int, int)>
    decreases hi - j,
{
    if j >= hi {
        seq![(start, hi)]
    } else if hk(ss[j])[c] != hk(ss[start])[c] {
        seq![(start, j)] + runs_from(ss, j, j + 1, hi, c)
    } else {
        runs_from(ss, start, j + 1, hi, c)
    }
}

/// The partition `lo..hi` split by chord `c`: the shortcuts with at most `c`
/// chords are left out, the others are grouped in runs of equal chord `c`.
pub open spec fn split(ss: Seq<Shortcut>, lo: int, hi: int, c: int) -> Seq<(int, int)> {
    let f = first_long(ss, lo, hi, c);
    if f >= hi {
        Seq::empty()
    } else {
        runs_from(ss, f, f + 1, hi, c)
    }
}

/// The action of the part `q` at column `c`: the command of its one shortcut
/// if that has exactly `c + 1` chords, else a keyspace titled by its first
/// `c + 1` chords.
pub open spec fn action_of<'p, 'f>(ss: Seq<Shortcut<'p, 'f>>, q: (int, int), c: int) -> ActionModel<'p, 'f> {
    let s = ss[q.0];
    if q.1 - q.0 == 1 && s.hotkey@.len() == c + 1 {
        ActionModel::Command(s.hotkey@[c], s)
    } else {
        ActionModel::SetState(s.hotkey@.subrange(0, c + 1))
    }
}

pub open spec fn actions_of<'p, 'f>(ss: Seq<Shortcut<'p, 'f>>, parts: Seq<(int, int)>, c: int) -> Seq<ActionModel<'p, 'f>> {
    parts.map_values(|q: (int, int)| action_of(ss, q, c))
}

/// Column `c` applied to the partitions `todo[0..t]`, after `acc`.
pub open spec fn level<'p, 'f>(ss: Seq<Shortcut<'p, 'f>>, todo: Seq<(int, int)>, c: int, t: int, acc: KsState<'p, 'f>) -> KsState<'p, 'f>
    decreases t,
{
    if t <= 0 {
        acc
    } else {
        let prev = level(ss, todo, c, t - 1, acc);
        let p = todo[t - 1];
        let parts = split(ss, p.0, p.1, c);
        KsState {
            todo: prev.todo + parts,
            actions: prev.actions + actions_of(ss, parts, c),
            keyspaces: if parts.len() > 0 {
                prev.keyspaces.push(KeyspaceModel {
                    title: ss[p.0].hotkey@.subrange(0, c),
                    start: prev.actions.len() as int,
                    end: (prev.actions.len() + parts.len()) as int,
                })
            } else {
                prev.keyspaces
            },
        }
    }
}

/// The construction after the columns `0..c`.
pub open spec fn columns<'p, 'f>(ss: Seq<Shortcut<'p, 'f>>, c: int) -> KsState<'p, 'f>
    decreases c,
{
    if c <= 0 {
        KsState { todo: seq![(0, ss.len() as int)], actions: Seq::empty(), keyspaces: Seq::empty() }
    } else {
        let prev = columns(ss, c - 1);
        level(ss, prev.todo, c - 1, prev.todo.len() as int, KsState { todo: Seq::empty(), ..prev })
    }
}

/// The most chords of a hotkey of `ss`.
pub open spec fn max_depth(ss: Seq<Shortcut>) -> int
    decreases ss.len(),
{
    if ss.len() == 0 {
        0
    } else {
        let m = max_depth(ss.drop_last());
        let l = ss.last().hotkey@.len() as int;
        if m < l { l } else { m }
    }
}

/// A shortcut as its contents.
pub struct ShortcutView<'filestr> {
    pub is_placeholder: bool,
    pub hotkey: Seq<Chord<'filestr>>,
    pub command: Seq<WithSpan<'filestr, ()>>,
}

pub open spec fn shortcut_view<'p, 'f>(s: Shortcut<'p, 'f>) -> ShortcutView<'f> {
    ShortcutView { is_placeholder: s.is_placeholder, hotkey: s.hotkey@, command: s.command@ }
}

pub open spec fn shortcut_views<'p, 'f>(ss: Seq<Shortcut<'p, 'f>>) -> Seq<ShortcutView<'f>> {
    ss.map_values(|s: Shortcut<'p, 'f>| shortcut_view(s))
}

/// The shortcuts of an owner, in its order, as their contents.
pub open spec fn owner_views<'f>(o: ShortcutOwner<'f>) -> Seq<ShortcutView<'f>> {
    o.shortcuts@.map_values(|p: crate::parser::ShortcutPointer| ShortcutView {
        is_placeholder: p.is_placeholder,
        hotkey: o.chords@.subrange(p.head_start as int, p.head_end as int),
        command: o.scripts@.subrange(p.body_start as int, p.body_end as int),
    })
}

/// The shortcuts of `vs` that are not placeholders, in order.
pub open spec fn commands_only<'f>(vs: Seq<ShortcutView<'f>>) -> Seq<ShortcutView<'f>>
    decreases vs.len(),
{
    if vs.len() == 0 {
        Seq::empty()
    } else {
        let rest = commands_only(vs.drop_last());
        if vs.last().is_placeholder { rest } else { rest.push(vs.last()) }
    }
}

/// The partitions of `todo` lie in `ss`, and the shortcuts of each have at
/// least `c` chords and share their first `c`.
pub open spec fn partitions_ok(ss: Seq<Shortcut>, todo: Seq<(int, int)>, c: int) -> bool {
    forall|k: int| 0 <= k < todo.len() ==> {
        let p = #[trigger] todo[k];
        &&& 0 <= p.0 <= p.1 <= ss.len()
        &&& forall|i: int| p.0 <= i < p.1 ==> (#[trigger] ss[i]).hotkey@.len() >= c && hk(ss[i]).take(c) == hk(ss[p.0]).take(c)
    }
}

pub open spec fn ints(v: Seq<(usize, usize)>) -> Seq<(int, int)> {
    v.map_values(|q: (usize, usize)| (q.0 as int, q.1 as int))
}

/****************************************************************************
 * Lemmas
 ****************************************************************************/

proof fn lemma_first_long(ss: Seq<Shortcut>, i: int, hi: int, c: int)
    requires
        i <= hi,
    ensures
        i <= first_long(ss, i, hi, c) <= hi,
        first_long(ss, i, hi, c) < hi ==> ss[first_long(ss, i, hi, c)].hotkey@.len() > c,
        forall|x: int| i <= x < first_long(ss, i, hi, c) ==> (#[trigger] ss[x]).hotkey@.len() <= c,
    decreases hi - i,
{
    if i < hi && ss[i].hotkey@.len() <= c {
        lemma_first_long(ss, i + 1, hi, c);
    }
}

/// In a sorted partition whose shortcuts share their first `c` chords, every
/// shortcut after one with more than `c` chords has more than `c` chords too:
/// one with exactly `c` would start the earlier one and sort before it.
proof fn lemma_long_after(ss: Seq<Shortcut>, lo: int, hi: int, c: int, f: int, j: int)
    requires
        sorted_shortcuts(ss),
        0 <= lo <= f < j < hi <= ss.len(),
        0 <= c,
        ss[f].hotkey@.len() > c,
        forall|i: int| lo <= i < hi ==> (#[trigger] ss[i]).hotkey@.len() >= c && hk(ss[i]).take(c) == hk(ss[lo]).take(c),
    ensures
        ss[j].hotkey@.len() > c,
{
    if ss[j].hotkey@.len() <= c {
        let a = hk(ss[j]);
        let b = hk(ss[f]);
        assert(ss[f].hotkey@.len() >= c && hk(ss[f]).take(c) == hk(ss[lo]).take(c));
        assert(ss[j].hotkey@.len() >= c && hk(ss[j]).take(c) == hk(ss[lo]).take(c));
        assert(a =~= a.take(c));
        assert(b.take(a.len() as int) == a);
        lemma_prefix_le(a, b);
        assert(hotkey_le(hk(ss[f]), hk(ss[j])));
        lemma_hotkey_le_antisym(a, b);
        assert(a.len() != b.len());
    }
}

proof fn lemma_runs_from(ss: Seq<Shortcut>, start: int, j: int, hi: int, c: int)
    requires
        0 <= start < j <= hi <= ss.len(),
        forall|i: int| start <= i < hi ==> (#[trigger] ss[i]).hotkey@.len() > c,
        forall|i: int| start <= i < j ==> hk(#[trigger] ss[i])[c] == hk(ss[start])[c],
    ensures
        runs_from(ss, start, j, hi, c).len() > 0,
        forall|k: int| 0 <= k < runs_from(ss, start, j, hi, c).len() ==> {
            let q = #[trigger] runs_from(ss, start, j, hi, c)[k];
            &&& start <= q.0 < q.1 <= hi
            &&& forall|i: int| q.0 <= i < q.1 ==> hk(#[trigger] ss[i])[c] == hk(ss[q.0])[c]
        },
    decreases hi - j,
{
    if j >= hi {
    } else if hk(ss[j])[c] != hk(ss[start])[c] {
        lemma_runs_from(ss, j, j + 1, hi, c);
        let rest = runs_from(ss, j, j + 1, hi, c);
        assert forall|k: int| 0 <= k < runs_from(ss, start, j, hi, c).len() implies {
            let q = #[trigger] runs_from(ss, start, j, hi, c)[k];
            &&& start <= q.0 < q.1 <= hi
            &&& forall|i: int| q.0 <= i < q.1 ==> hk(#[trigger] ss[i])[c] == hk(ss[q.0])[c]
        } by {
            if k > 0 {
                assert(runs_from(ss, start, j, hi, c)[k] == rest[k - 1]);
            }
        }
    } else {
        lemma_runs_from(ss, start, j + 1, hi, c);
    }
}

/// The parts of a well-formed partition are well-formed one column further,
/// and lie within the partition.
proof fn lemma_split_ok(ss: Seq<Shortcut>, lo: int, hi: int, c: int)
    requires
        sorted_shortcuts(ss),
        0 <= lo <= hi <= ss.len(),
        0 <= c,
        forall|i: int| lo <= i < hi ==> (#[trigger] ss[i]).hotkey@.len() >= c && hk(ss[i]).take(c) == hk(ss[lo]).take(c),
    ensures
        partitions_ok(ss, split(ss, lo, hi, c), c + 1),
        forall|k: int| 0 <= k < split(ss, lo, hi, c).len() ==> lo <= (#[trigger] split(ss, lo, hi, c)[k]).0 < split(ss, lo, hi, c)[k].1 <= hi,
        split(ss, lo, hi, c).len() > 0 ==> lo < hi,
{
    lemma_first_long(ss, lo, hi, c);
    let f = first_long(ss, lo, hi, c);
    if f < hi {
        assert forall|i: int| f <= i < hi implies (#[trigger] ss[i]).hotkey@.len() > c by {
            if i > f {
                lemma_long_after(ss, lo, hi, c, f, i);
            }
        }
        lemma_runs_from(ss, f, f + 1, hi, c);
        let parts = split(ss, lo, hi, c);
        assert forall|k: int| 0 <= k < parts.len() implies {
            let p = #[trigger] parts[k];
            &&& 0 <= p.0 <= p.1 <= ss.len()
            &&& forall|i: int| p.0 <= i < p.1 ==> (#[trigger] ss[i]).hotkey@.len() >= c + 1 && hk(ss[i]).take(c + 1) == hk(ss[p.0]).take(c + 1)
        } by {
            let p = parts[k];
            assert forall|i: int| p.0 <= i < p.1 implies (#[trigger] ss[i]).hotkey@.len() >= c + 1 && hk(ss[i]).take(c + 1) == hk(ss[p.0]).take(c + 1) by {
                assert(hk(ss[i])[c] == hk(ss[p.0])[c]);
                assert(hk(ss[i]).take(c) == hk(ss[lo]).take(c));
                assert(hk(ss[p.0]).take(c) == hk(ss[lo]).take(c));
                assert forall|x: int| 0 <= x < c + 1 implies #[trigger] hk(ss[i]).take(c + 1)[x] == hk(ss[p.0]).take(c + 1)[x] by {
                    if x < c {
                        assert(hk(ss[i]).take(c)[x] == hk(ss[p.0]).take(c)[x]);
                    }
                }
                assert(hk(ss[i]).take(c + 1) =~= hk(ss[p.0]).take(c + 1));
            }
        }
    }
}

/// Rearranging shortcuts rearranges their contents alike.
proof fn lemma_views_permute<'p, 'f>(a: Seq<Shortcut<'p, 'f>>, b: Seq<Shortcut<'p, 'f>>)
    requires
        permutes(a, b),
    ensures
        permutes(shortcut_views(a), shortcut_views(b)),
{
    let (f, g) = choose|f: Seq<int>, g: Seq<int>| #[trigger] is_bijection(f, g, a.len())
        && forall|x: int| 0 <= x < a.len() ==> a[x] == b[#[trigger] f[x]];
    assert forall|x: int| 0 <= x < a.len() implies shortcut_views(a)[x] == shortcut_views(b)[#[trigger] f[x]] by {
        assert(a[x] == b[f[x]]);
    }
    assert(is_bijection(f, g, shortcut_views(a).len()));
}

/****************************************************************************
 * Sorting
 ****************************************************************************/

/// Whether the hotkey of `a` comes before or equals that of `b`.
fn shortcut_le(a: &Shortcut, b: &Shortcut) -> (le: bool)
    ensures
        le == hotkey_le(hk(*a), hk(*b)),
{
    let ghost ha = hk(*a);
    let ghost hb = hk(*b);
    let alen = a.hotkey.len();
    let blen = b.hotkey.len();
    let mut t: usize = 0;
    proof {
        assert(ha.skip(0) =~= ha);
        assert(hb.skip(0) =~= hb);
    }
    while t < alen && t < blen
        invariant
            ha == hk(*a),
            hb == hk(*b),
            alen == ha.len(),
            blen == hb.len(),
            t <= alen,
            t <= blen,
            hotkey_le(ha, hb) == hotkey_le(ha.skip(t as int), hb.skip(t as int)),
        decreases alen - t,
    {
        let x = a.hotkey[t];
        let y = b.hotkey[t];
        assert(ha.skip(t as int)[0] == chord_key(x));
        assert(hb.skip(t as int)[0] == chord_key(y));
        if x.key < y.key || (x.key == y.key && x.modifiers < y.modifiers) {
            return true;
        }
        if !(x.key == y.key && x.modifiers == y.modifiers) {
            return false;
        }
        assert(ha.skip(t as int).drop_first() =~= ha.skip(t + 1));
        assert(hb.skip(t as int).drop_first() =~= hb.skip(t + 1));
        t += 1;
    }
    alen <= blen
}

/// The shortcuts sorted by hotkey.
fn sort_shortcuts<'p, 'f>(v: Vec<Shortcut<'p, 'f>>) -> (out: Vec<Shortcut<'p, 'f>>)
    ensures
        permutes(out@, v@),
        sorted_shortcuts(out@),
{
    let mut out: Vec<Shortcut<'p, 'f>> = Vec::new();
    let ghost mut f: Seq<int> = Seq::empty();
    let ghost mut g: Seq<int> = Seq::empty();
    let mut k: usize = 0;
    while k < v.len()
        invariant
            k <= v@.len(),
            out@.len() == k,
            f.len() == k,
            g.len() == k,
            forall|x: int| 0 <= x < k ==> 0 <= #[trigger] f[x] < k && g[f[x]] == x && out@[x] == v@[f[x]],
            forall|i: int| 0 <= i < k ==> 0 <= #[trigger] g[i] < k && f[g[i]] == i,
            sorted_shortcuts(out@),
        decreases v@.len() - k,
    {
        let item = v[k];
        let mut pos: usize = 0;
        while pos < out.len() && shortcut_le(&out[pos], &item)
            invariant
                pos <= out@.len(),
                forall|x: int| 0 <= x < pos ==> hotkey_le(hk(#[trigger] out@[x]), hk(item)),
            decreases out@.len() - pos,
        {
            pos += 1;
        }
        let ghost before = out@;
        let ghost f0 = f;
        let ghost g0 = g;
        proof {
            if pos < out@.len() {
                lemma_hotkey_le_total(hk(out@[pos as int]), hk(item));
            }
        }
        out.insert(pos, item);
        proof {
            f = f0.insert(pos as int, k as int);
            g = Seq::new((k + 1) as nat, |i: int| if i == k { pos as int } else if g0[i] >= pos { g0[i] + 1 } else { g0[i] });
            assert forall|x: int| 0 <= x < k + 1 implies 0 <= #[trigger] f[x] < k + 1 && g[f[x]] == x && out@[x] == v@[f[x]] by {
                if x < pos {
                    assert(f[x] == f0[x]);
                    assert(out@[x] == before[x]);
                } else if x > pos {
                    assert(f[x] == f0[x - 1]);
                    assert(out@[x] == before[x - 1]);
                }
            }
            assert forall|i: int| 0 <= i < k + 1 implies 0 <= #[trigger] g[i] < k + 1 && f[g[i]] == i by {
                if i < k {
                    if g0[i] >= pos {
                        assert(f[g0[i] + 1] == f0[g0[i]]);
                    } else {
                        assert(f[g0[i]] == f0[g0[i]]);
                    }
                }
            }
            assert forall|x: int, y: int| 0 <= x < y < out@.len() implies hotkey_le(hk(#[trigger] out@[x]), hk(#[trigger] out@[y])) by {
                if y < pos {
                    assert(out@[x] == before[x] && out@[y] == before[y]);
                } else if y == pos {
                    assert(out@[x] == before[x]);
                } else if x == pos {
                    assert(out@[y] == before[y - 1]);
                    if y - 1 > pos {
                        assert(hotkey_le(hk(before[pos as int]), hk(before[y - 1])));
                        lemma_hotkey_le_trans(hk(item), hk(before[pos as int]), hk(before[y - 1]));
                    }
                } else if x < pos {
                    assert(out@[x] == before[x] && out@[y] == before[y - 1]);
                } else {
                    assert(out@[x] == before[x - 1] && out@[y] == before[y - 1]);
                }
            }
        }
        k += 1;
    }
    proof {
        assert(is_bijection(f, g, out@.len()));
        assert forall|x: int| 0 <= x < out@.len() implies out@[x] == v@[#[trigger] f[x]] by {}
    }
    out
}

/****************************************************************************
 * Control flow
 ****************************************************************************/

/// In `ss[lo..hi]`, the shortcuts with at most `c` chords come before the others.
pub open spec fn short_first(ss: Seq<Shortcut>, lo: int, hi: int, c: int) -> bool {
    forall|i: int, j: int| lo <= i < j < hi && (#[trigger] ss[i]).hotkey@.len() > c ==> (#[trigger] ss[j]).hotkey@.len() > c
}

/// Splits the partition `lo..hi` by chord `col` and adds its parts to `into_store`:
/// the shortcuts with at most `col` chords (which come first) are left out,
/// and the others are grouped in the maximal runs that share chord `col`.
fn split_by_col_into(ss: &Vec<Shortcut>, lo: usize, hi: usize, col: usize, into_store: &mut Vec<(usize, usize)>)
    requires
        lo <= hi <= ss@.len(),
        short_first(ss@, lo as int, hi as int, col as int),
    ensures
        ints(final(into_store)@) == ints(old(into_store)@) + split(ss@, lo as int, hi as int, col as int),
{
    let ghost c = col as int;
    let ghost init = ints(into_store@);
    proof {
        lemma_first_long(ss@, lo as int, hi as int, c);
    }
    let mut f = lo;
    while f < hi && ss[f].hotkey.len() <= col
        invariant
            lo <= f <= hi <= ss@.len(),
            c == col,
            first_long(ss@, f as int, hi as int, c) == first_long(ss@, lo as int, hi as int, c),
        decreases hi - f,
    {
        f += 1;
    }
    if f >= hi {
        assert(into_store@ =~= old(into_store)@);
        assert(ints(into_store@) =~= init + split(ss@, lo as int, hi as int, c));
        return;
    }
    assert(first_long(ss@, f as int, hi as int, c) == f);
    assert forall|i: int| f <= i < hi implies (#[trigger] ss@[i]).hotkey@.len() > c by {
        if i > f {
            assert(ss@[f as int].hotkey@.len() > c);
        }
    }
    let mut start = f;
    let mut j = f + 1;
    while j < hi
        invariant
            f < hi <= ss@.len(),
            f <= start < j <= hi,
            forall|i: int| f <= i < hi ==> (#[trigger] ss@[i]).hotkey@.len() > c,
            c == col,
            ints(into_store@) + runs_from(ss@, start as int, j as int, hi as int, c)
                == init + runs_from(ss@, f as int, f + 1, hi as int, c),
        decreases hi - j,
    {
        let a = ss[start].hotkey[col];
        let b = ss[j].hotkey[col];
        assert(hk(ss@[start as int])[c] == chord_key(a));
        assert(hk(ss@[j as int])[c] == chord_key(b));
        if a.key != b.key || a.modifiers != b.modifiers {
            let ghost before = ints(into_store@);
            into_store.push((start, j));
            proof {
                assert(ints(into_store@) =~= before.push((start as int, j as int)));
                assert(runs_from(ss@, start as int, j as int, hi as int, c)
                    == seq![(start as int, j as int)] + runs_from(ss@, j as int, j + 1, hi as int, c));
                assert(before + (seq![(start as int, j as int)] + runs_from(ss@, j as int, j + 1, hi as int, c))
                    =~= before.push((start as int, j as int)) + runs_from(ss@, j as int, j + 1, hi as int, c));
            }
            start = j;
        }
        j += 1;
    }
    let ghost before = ints(into_store@);
    into_store.push((start, hi));
    proof {
        assert(ints(into_store@) =~= before.push((start as int, hi as int)));
        assert(runs_from(ss@, start as int, hi as int, hi as int, c) == seq![(start as int, hi as int)]);
        assert(before + seq![(start as int, hi as int)] =~= before.push((start as int, hi as int)));
    }
}

/****************************************************************************
 * Syntax
 ****************************************************************************/

pub open spec fn action_views<'p, 'f>(v: Seq<Action<'p, 'f>>) -> Seq<ActionModel<'p, 'f>> {
    v.map_values(|a: Action<'p, 'f>| a.view())
}

pub open spec fn keyspace_views<'p, 'f>(v: Seq<KeyspaceRef<'p, 'f>>) -> Seq<KeyspaceModel<'f>> {
    v.map_values(|k: KeyspaceRef<'p, 'f>| k.view())
}

/// `a` leads one chord further than `title`: its chords start with those of
/// `title` and have one more.
pub open spec fn extends(title: Seq<Chord>, a: Action) -> bool {
    match a {
        Action::SetState(t) => t@.len() == title.len() + 1 && chord_keys(t@).take(title.len() as int) == chord_keys(title),
        Action::Command(trigger, s) => {
            &&& s.hotkey@.len() == title.len() + 1
            &&& chord_keys(s.hotkey@).take(title.len() as int) == chord_keys(title)
            &&& s.hotkey@[title.len() as int] == trigger
        },
    }
}

/// Every keyspace has actions, they lie in the list of actions, and each
/// leads one chord further than the keyspace's title.
pub open spec fn keyspaces_ok(keyspaces: Seq<KeyspaceRef>, actions: Seq<Action>) -> bool {
    forall|k: int| 0 <= k < keyspaces.len() ==> {
        let ks = #[trigger] keyspaces[k];
        &&& ks.action_start < ks.action_end <= actions.len()
        &&& forall|x: int| ks.action_start <= x < ks.action_end ==> extends(ks.title@, #[trigger] actions[x])
    }
}

impl<'parsemes, 'filestr> KeyspaceOwner<'parsemes, 'filestr> {
    pub open spec fn wf(&self) -> bool {
        keyspaces_ok(self.keyspaces@, self.all_actions@)
    }

    /// The actions of every keyspace lie within the list of actions.
    pub open spec fn action_ranges_ok(&self) -> bool {
        forall|k: int| 0 <= k < self.keyspaces@.len()
            ==> (#[trigger] self.keyspaces@[k]).action_start <= self.keyspaces@[k].action_end <= self.all_actions@.len()
    }

    /// The keyspaces as they are built from the sorted shortcuts.
    pub open spec fn model(&self) -> KsState<'parsemes, 'filestr> {
        columns(self.sorted@, max_depth(self.sorted@))
    }
}

proof fn lemma_commands_only_step<'f>(vs: Seq<ShortcutView<'f>>, k: int)
    requires
        0 <= k < vs.len(),
    ensures
        commands_only(vs.take(k + 1)) == if vs[k].is_placeholder {
            commands_only(vs.take(k))
        } else {
            commands_only(vs.take(k)).push(vs[k])
        },
{
    assert(vs.take(k + 1).drop_last() =~= vs.take(k));
}

/// `ko` holds the keyspaces of the shortcuts of `o` that are not
/// placeholders: those shortcuts sorted by hotkey, and the keyspaces built
/// from them.
pub open spec fn keyspaces_of<'p, 'f>(ko: KeyspaceOwner<'p, 'f>, o: ShortcutOwner<'f>) -> bool {
    &&& permutes(shortcut_views(ko.sorted@), commands_only(owner_views(o)))
    &&& sorted_shortcuts(ko.sorted@)
    &&& action_views(ko.all_actions@) == ko.model().actions
    &&& keyspace_views(ko.keyspaces@) == ko.model().keyspaces
    &&& ko.wf()
}

/// Some shortcut of `o` that is not a placeholder has a chord.
pub open spec fn has_command_chord(o: ShortcutOwner) -> bool {
    exists|k: int| 0 <= k < owner_views(o).len() && !(#[trigger] owner_views(o)[k]).is_placeholder && owner_views(o)[k].hotkey.len() > 0
}

/// The action of the part `a..b` of the sorted shortcuts at column `col`.
fn partition_to_action<'p, 'f>(sorted: &Vec<Shortcut<'p, 'f>>, a: usize, b: usize, col: usize) -> (action: Action<'p, 'f>)
    requires
        a < b <= sorted@.len(),
        sorted@[a as int].hotkey@.len() > col,
    ensures
        action.view() == action_of(sorted@, (a as int, b as int), col as int),
        action matches Action::SetState(t) ==> t@ == sorted@[a as int].hotkey@.subrange(0, col + 1),
        action matches Action::Command(_, s) ==> s == sorted@[a as int],
{
    let first = sorted[a];
    if b - a == 1 && first.hotkey.len() == col + 1 {
        Action::Command(first.hotkey[col], first)
    } else {
        Action::SetState(vstd::slice::slice_subrange(first.hotkey, 0, col + 1))
    }
}

/// The keyspaces of the shortcuts that are not placeholders.
pub fn process<'parsemes, 'filestr>(shortcut_owner: &'parsemes ShortcutOwner<'filestr>) -> (owner: KeyspaceOwner<'parsemes, 'filestr>)
    requires
        shortcut_owner.wf(),
    ensures
        keyspaces_of(owner, *shortcut_owner),
{
    let list = shortcut_owner.to_iter();
    proof {
        assert(shortcut_views(list@) =~= owner_views(*shortcut_owner));
    }
    let mut commands: Vec<Shortcut<'parsemes, 'filestr>> = Vec::new();
    let mut k: usize = 0;
    while k < list.len()
        invariant
            k <= list@.len(),
            shortcut_views(commands@) == commands_only(shortcut_views(list@).take(k as int)),
        decreases list@.len() - k,
    {
        proof {
            lemma_commands_only_step(shortcut_views(list@), k as int);
        }
        if !list[k].is_placeholder {
            let ghost before = commands@;
            commands.push(list[k]);
            assert(shortcut_views(commands@) =~= shortcut_views(before).push(shortcut_view(list@[k as int])));
        }
        k += 1;
    }
    assert(shortcut_views(list@).take(list@.len() as int) =~= shortcut_views(list@));
    let ghost filtered = commands@;
    let sorted = sort_shortcuts(commands);
    let ghost ss = sorted@;
    proof {
        lemma_views_permute(ss, filtered);
    }
    let n = sorted.len();
    let mut max_d: usize = 0;
    let mut k: usize = 0;
    while k < n
        invariant
            n == ss.len(),
            ss == sorted@,
            k <= n,
            max_d == max_depth(ss.take(k as int)),
        decreases n - k,
    {
        assert(ss.take(k + 1).drop_last() =~= ss.take(k as int));
        let l = sorted[k].hotkey.len();
        if max_d < l {
            max_d = l;
        }
        k += 1;
    }
    assert(ss.take(n as int) =~= ss);

    let mut todo: Vec<(usize, usize)> = Vec::new();
    todo.push((0, n));
    let mut all_actions: Vec<Action<'parsemes, 'filestr>> = Vec::new();
    let mut keyspaces: Vec<KeyspaceRef<'parsemes, 'filestr>> = Vec::new();
    proof {
        assert(ints(todo@) =~= columns(ss, 0).todo);
        assert(action_views(all_actions@) =~= columns(ss, 0).actions);
        assert(keyspace_views(keyspaces@) =~= columns(ss, 0).keyspaces);
        assert(partitions_ok(ss, ints(todo@), 0)) by {
            assert forall|i: int| 0 <= i < n implies (#[trigger] ss[i]).hotkey@.len() >= 0 && hk(ss[i]).take(0) == hk(ss[0]).take(0) by {
                assert(hk(ss[i]).take(0) =~= hk(ss[0]).take(0));
            }
        }
    }
    let mut col: usize = 0;
    while col < max_d
        invariant
            ss == sorted@,
            sorted_shortcuts(ss),
            n == ss.len(),
            max_d == max_depth(ss),
            col <= max_d,
            ints(todo@) == columns(ss, col as int).todo,
            action_views(all_actions@) == columns(ss, col as int).actions,
            keyspace_views(keyspaces@) == columns(ss, col as int).keyspaces,
            partitions_ok(ss, ints(todo@), col as int),
            keyspaces_ok(keyspaces@, all_actions@),
        decreases max_d - col,
    {
        let ghost cur = columns(ss, col as int);
        let ghost base = KsState { todo: Seq::empty(), ..cur };
        let mut done: Vec<(usize, usize)> = Vec::new();
        let mut t: usize = 0;
        proof {
            assert(ints(done@) =~= level(ss, cur.todo, col as int, 0, base).todo);
        }
        while t < todo.len()
            invariant
                ss == sorted@,
                sorted_shortcuts(ss),
                n == ss.len(),
                max_d == max_depth(ss),
                col < max_d,
                cur == columns(ss, col as int),
                base == (KsState { todo: Seq::empty(), ..cur }),
                ints(todo@) == cur.todo,
                partitions_ok(ss, ints(todo@), col as int),
                t <= todo@.len(),
                ints(done@) == level(ss, cur.todo, col as int, t as int, base).todo,
                action_views(all_actions@) == level(ss, cur.todo, col as int, t as int, base).actions,
                keyspace_views(keyspaces@) == level(ss, cur.todo, col as int, t as int, base).keyspaces,
                partitions_ok(ss, ints(done@), col + 1),
                keyspaces_ok(keyspaces@, all_actions@),
            decreases todo@.len() - t,
        {
            let (lo, hi) = todo[t];
            let ghost p = ints(todo@)[t as int];
            assert(p == (lo as int, hi as int));
            assert(0 <= p.0 <= p.1 <= ss.len());
            let ghost prev = level(ss, cur.todo, col as int, t as int, base);
            let ghost parts = split(ss, lo as int, hi as int, col as int);
            proof {
                lemma_split_ok(ss, lo as int, hi as int, col as int);
            }
            let before = done.len();
            let ghost done0 = ints(done@);
            assert(done0.len() == before);
            assert forall|i: int| lo <= i < hi implies (#[trigger] sorted@[i]).hotkey@.len() >= col && hk(sorted@[i]).take(col as int) == hk(sorted@[lo as int]).take(col as int) by {
                assert(p == ints(todo@)[t as int]);
            }
            assert forall|i: int, j: int| lo <= i < j < hi && (#[trigger] ss[i]).hotkey@.len() > col
                implies (#[trigger] ss[j]).hotkey@.len() > col by {
                lemma_long_after(ss, lo as int, hi as int, col as int, i, j);
            }
            split_by_col_into(&sorted, lo, hi, col, &mut done);
            assert(ints(done@) == done0 + parts);
            assert(ints(done@).len() == done@.len());
            assert(ints(done@).subrange(before as int, done@.len() as int) =~= parts);
            proof {
                assert forall|k: int| 0 <= k < ints(done@).len() implies {
                    let q = #[trigger] ints(done@)[k];
                    &&& 0 <= q.0 <= q.1 <= ss.len()
                    &&& forall|i: int| q.0 <= i < q.1 ==> (#[trigger] ss[i]).hotkey@.len() >= col + 1 && hk(ss[i]).take(col + 1) == hk(ss[q.0]).take(col + 1)
                } by {
                    if k < before {
                        assert(ints(done@)[k] == done0[k]);
                    } else {
                        assert(ints(done@)[k] == parts[k - before]);
                    }
                }
            }
            let action_start = all_actions.len();
            let mut r = before;
            while r < done.len()
                invariant
                    ss == sorted@,
                    n == ss.len(),
                    before <= r <= done@.len(),
                    action_start == prev.actions.len(),
                    ints(done@).subrange(before as int, done@.len() as int) == parts,
                    partitions_ok(ss, ints(done@), col + 1),
                    partitions_ok(ss, ints(todo@), col as int),
                    forall|k: int| 0 <= k < parts.len() ==> lo <= (#[trigger] parts[k]).0 < parts[k].1 <= hi,
                    lo <= hi <= n,
                    action_views(all_actions@) == prev.actions + actions_of(ss, parts.take(r - before), col as int),
                    keyspaces_ok(keyspaces@, all_actions@),
                    forall|x: int| action_start <= x < all_actions@.len() ==> extends(ss[lo as int].hotkey@.subrange(0, col as int), #[trigger] all_actions@[x]),
                    forall|i: int| lo <= i < hi ==> (#[trigger] ss[i]).hotkey@.len() >= col && hk(ss[i]).take(col as int) == hk(ss[lo as int]).take(col as int),
                decreases done@.len() - r,
            {
                let (a, b) = done[r];
                let ghost q = parts[r - before];
                assert(q == ints(done@)[r as int]);
                assert(lo <= q.0 < q.1 <= hi);
                assert(ss[a as int].hotkey@.len() >= col + 1);
                let action = partition_to_action(&sorted, a, b, col);
                let first = sorted[a];
                proof {
                    assert(action.view() == action_of(ss, q, col as int));
                    let title = ss[lo as int].hotkey@.subrange(0, col as int);
                    assert(hk(first).take(col as int) == hk(ss[lo as int]).take(col as int));
                    assert(chord_keys(title) =~= hk(ss[lo as int]).take(col as int));
                    match action {
                        Action::SetState(t) => {
                            assert(chord_keys(t@).take(col as int) =~= hk(first).take(col as int));
                        },
                        Action::Command(_, s) => {
                            assert(chord_keys(s.hotkey@).take(col as int) =~= hk(first).take(col as int));
                        },
                    }
                    assert(extends(title, action));
                }
                let ghost acts0 = all_actions@;
                all_actions.push(action);
                proof {
                    assert(parts.take(r + 1 - before) =~= parts.take(r - before).push(q));
                    assert(actions_of(ss, parts.take(r + 1 - before), col as int)
                        =~= actions_of(ss, parts.take(r - before), col as int).push(action_of(ss, q, col as int)));
                    assert(action_views(all_actions@) =~= action_views(acts0).push(action.view()));
                    assert forall|k: int| 0 <= k < keyspaces@.len() implies {
                        let ks = #[trigger] keyspaces@[k];
                        &&& ks.action_start < ks.action_end <= all_actions@.len()
                        &&& forall|x: int| ks.action_start <= x < ks.action_end ==> extends(ks.title@, #[trigger] all_actions@[x])
                    } by {
                        let ks = keyspaces@[k];
                        assert forall|x: int| ks.action_start <= x < ks.action_end implies extends(ks.title@, #[trigger] all_actions@[x]) by {
                            assert(all_actions@[x] == acts0[x]);
                        }
                    }
                }
                r += 1;
            }
            assert(parts.take(done@.len() - before) =~= parts);
            if done.len() > before {
                let title = vstd::slice::slice_subrange(sorted[lo].hotkey, 0, col);
                let ghost ks0 = keyspaces@;
                keyspaces.push(KeyspaceRef { title, action_start, action_end: all_actions.len() });
                proof {
                    assert(keyspace_views(keyspaces@) =~= keyspace_views(ks0).push(keyspaces@.last().view()));
                    assert forall|k: int| 0 <= k < keyspaces@.len() implies {
                        let ks = #[trigger] keyspaces@[k];
                        &&& ks.action_start < ks.action_end <= all_actions@.len()
                        &&& forall|x: int| ks.action_start <= x < ks.action_end ==> extends(ks.title@, #[trigger] all_actions@[x])
                    } by {
                        if k < ks0.len() {
                            assert(keyspaces@[k] == ks0[k]);
                        }
                    }
                }
            }
            t += 1;
        }
        proof {
            assert(cur.todo.len() == todo@.len());
        }
        todo = done;
        col += 1;
    }
    KeyspaceOwner { keyspaces, all_actions, sorted: Ghost(ss) }
}

proof fn lemma_level_keeps<'p, 'f>(ss: Seq<Shortcut<'p, 'f>>, todo: Seq<(int, int)>, c: int, t: int, acc: KsState<'p, 'f>)
    ensures
        level(ss, todo, c, t, acc).keyspaces.len() >= acc.keyspaces.len(),
        level(ss, todo, c, t, acc).keyspaces.take(acc.keyspaces.len() as int) == acc.keyspaces,
    decreases t,
{
    if t > 0 {
        lemma_level_keeps(ss, todo, c, t - 1, acc);
        let prev = level(ss, todo, c, t - 1, acc);
        assert(prev.keyspaces.push(arbitrary()).take(acc.keyspaces.len() as int) =~= prev.keyspaces.take(acc.keyspaces.len() as int));
        let p = todo[t - 1];
        let parts = split(ss, p.0, p.1, c);
        if parts.len() > 0 {
            let ks = level(ss, todo, c, t, acc).keyspaces;
            assert(ks.take(acc.keyspaces.len() as int) =~= prev.keyspaces.take(acc.keyspaces.len() as int));
        }
    }
}

proof fn lemma_columns_keep<'p, 'f>(ss: Seq<Shortcut<'p, 'f>>, c1: int, c2: int)
    requires
        1 <= c1 <= c2,
    ensures
        columns(ss, c2).keyspaces.len() >= columns(ss, c1).keyspaces.len(),
        columns(ss, c2).keyspaces.take(columns(ss, c1).keyspaces.len() as int) == columns(ss, c1).keyspaces,
    decreases c2 - c1,
{
    if c2 > c1 {
        lemma_columns_keep(ss, c1, c2 - 1);
        let prev = columns(ss, c2 - 1);
        lemma_level_keeps(ss, prev.todo, c2 - 1, prev.todo.len() as int, KsState { todo: Seq::empty(), ..prev });
        let k1 = columns(ss, c1).keyspaces;
        assert(columns(ss, c2).keyspaces.take(k1.len() as int) =~= prev.keyspaces.take(k1.len() as int)) by {
            assert(columns(ss, c2).keyspaces.take(prev.keyspaces.len() as int) == prev.keyspaces);
            assert forall|x: int| 0 <= x < k1.len() implies columns(ss, c2).keyspaces.take(k1.len() as int)[x] == prev.keyspaces.take(k1.len() as int)[x] by {
                assert(columns(ss, c2).keyspaces.take(prev.keyspaces.len() as int)[x] == prev.keyspaces[x]);
            }
        }
    } else {
        assert(columns(ss, c2).keyspaces.take(columns(ss, c1).keyspaces.len() as int) =~= columns(ss, c1).keyspaces);
    }
}

proof fn lemma_max_depth<'p, 'f>(ss: Seq<Shortcut<'p, 'f>>)
    ensures
        max_depth(ss) >= 0,
        max_depth(ss) > 0 ==> exists|i: int| 0 <= i < ss.len() && (#[trigger] ss[i]).hotkey@.len() > 0,
    decreases ss.len(),
{
    if ss.len() > 0 {
        lemma_max_depth(ss.drop_last());
        if max_depth(ss.drop_last()) > 0 {
            let i = choose|i: int| 0 <= i < ss.drop_last().len() && (#[trigger] ss.drop_last()[i]).hotkey@.len() > 0;
            assert(ss[i] == ss.drop_last()[i]);
        } else if max_depth(ss) > 0 {
            assert(ss[ss.len() - 1].hotkey@.len() > 0);
        }
    }
}

proof fn lemma_runs_nonempty(ss: Seq<Shortcut>, start: int, j: int, hi: int, c: int)
    ensures
        runs_from(ss, start, j, hi, c).len() > 0,
    decreases hi - j,
{
    if j < hi {
        if hk(ss[j])[c] != hk(ss[start])[c] {
            lemma_runs_nonempty(ss, j, j + 1, hi, c);
        } else {
            lemma_runs_nonempty(ss, start, j + 1, hi, c);
        }
    }
}

/// When some shortcut has a chord, the first keyspace is the one reached by
/// typing nothing: its title is empty.
pub proof fn lemma_first_keyspace_untitled<'p, 'f>(ss: Seq<Shortcut<'p, 'f>>)
    requires
        max_depth(ss) > 0,
    ensures
        columns(ss, max_depth(ss)).keyspaces.len() > 0,
        columns(ss, max_depth(ss)).keyspaces[0].title.len() == 0,
        columns(ss, max_depth(ss)).keyspaces[0].start == 0,
{
    lemma_max_depth(ss);
    let n = ss.len() as int;
    lemma_first_long(ss, 0, n, 0);
    let i = choose|i: int| 0 <= i < ss.len() && (#[trigger] ss[i]).hotkey@.len() > 0;
    assert(first_long(ss, 0, n, 0) < n) by {
        if first_long(ss, 0, n, 0) >= n {
            assert(ss[i].hotkey@.len() <= 0);
        }
    }
    let c0 = columns(ss, 0);
    assert(c0.todo == seq![(0int, n)]);
    let c1 = columns(ss, 1);
    let base = KsState { todo: Seq::empty(), ..c0 };
    assert(level(ss, c0.todo, 0, 0, base).keyspaces.len() == 0);
    let f = first_long(ss, 0, n, 0);
    lemma_runs_nonempty(ss, f, f + 1, n, 0);
    assert(split(ss, 0, n, 0).len() > 0);
    assert(c1.keyspaces.len() == 1);
    lemma_columns_keep(ss, 1, max_depth(ss));
    assert(columns(ss, max_depth(ss)).keyspaces[0] == columns(ss, max_depth(ss)).keyspaces.take(1)[0]);
}

impl<'parsemes, 'filestr> Action<'parsemes, 'filestr> {
    /// The chord that triggers the action: the last of a keyspace's title,
    /// or the trigger of a command.
    pub fn key_trigger(&self) -> (chord: &Chord<'filestr>)
        requires
            self matches Action::SetState(title) ==> title@.len() > 0,
        ensures
            match *self {
                Action::SetState(title) => *chord == title@.last(),
                Action::Command(trigger, _) => *chord == trigger,
            },
    {
        match self {
            Action::SetState(title) => &title[title.len() - 1],
            Action::Command(trigger, _) => trigger,
        }
    }
}

impl<'parsemes, 'filestr> KeyspaceOwner<'parsemes, 'filestr> {
    /// Walks the keyspaces from the first.
    pub fn to_iter<'a>(&'a self) -> (iter: KeyspaceIter<'a, 'parsemes, 'filestr>)
        ensures
            iter.owner == self,
            iter.index == 0,
    {
        KeyspaceIter { owner: self, index: 0 }
    }
}

impl<'keyspaces, 'parsemes, 'filestr> KeyspaceIter<'keyspaces, 'parsemes, 'filestr> {
    /// The next keyspace, with its actions, or `None` after the last.
    pub fn next(&mut self) -> (item: Option<Keyspace<'keyspaces, 'parsemes, 'filestr>>)
        requires
            old(self).owner.action_ranges_ok(),
        ensures
            final(self).owner == old(self).owner,
            old(self).index < old(self).owner.keyspaces@.len() ==> {
                let ks = old(self).owner.keyspaces@[old(self).index as int];
                &&& final(self).index == old(self).index + 1
                &&& item matches Some(k)
                &&& k.title == ks.title
                &&& k.actions@ == old(self).owner.all_actions@.subrange(ks.action_start as int, ks.action_end as int)
            },
            old(self).index >= old(self).owner.keyspaces@.len() ==> item is None && final(self).index == old(self).index,
    {
        if self.index < self.owner.keyspaces.len() {
            let ks = self.owner.keyspaces[self.index];
            assert(ks == self.owner.keyspaces@[self.index as int]);
            let actions = vstd::slice::slice_subrange(self.owner.all_actions.as_slice(), ks.action_start, ks.action_end);
            self.index = self.index + 1;
            Some(Keyspace { title: ks.title, actions })
        } else {
            None
        }
    }
}

proof fn lemma_commands_only_has<'f>(vs: Seq<ShortcutView<'f>>, k: int)
    requires
        0 <= k < vs.len(),
        !vs[k].is_placeholder,
    ensures
        exists|j: int| 0 <= j < commands_only(vs).len() && commands_only(vs)[j] == vs[k],
    decreases vs.len(),
{
    if k == vs.len() - 1 {
        let j = commands_only(vs.drop_last()).len() as int;
        assert(commands_only(vs)[j] == vs[k]);
    } else {
        lemma_commands_only_has(vs.drop_last(), k);
        let j = choose|j: int| 0 <= j < commands_only(vs.drop_last()).len() && commands_only(vs.drop_last())[j] == vs.drop_last()[k];
        assert(commands_only(vs)[j] == vs[k]);
    }
}

proof fn lemma_max_depth_ge<'p, 'f>(ss: Seq<Shortcut<'p, 'f>>, i: int)
    requires
        0 <= i < ss.len(),
    ensures
        max_depth(ss) >= ss[i].hotkey@.len(),
    decreases ss.len(),
{
    if i < ss.len() - 1 {
        lemma_max_depth_ge(ss.drop_last(), i);
        assert(ss.drop_last()[i] == ss[i]);
    }
}

/// When a shortcut that is not a placeholder has a chord, there is a keyspace.
pub proof fn lemma_keyspaces_exist<'p, 'f>(ko: KeyspaceOwner<'p, 'f>, o: ShortcutOwner<'f>)
    requires
        keyspaces_of(ko, o),
        has_command_chord(o),
    ensures
        ko.keyspaces@.len() > 0,
        ko.keyspaces@[0].title@.len() == 0,
{
    let vs = owner_views(o);
    let k = choose|k: int| 0 <= k < vs.len() && !(#[trigger] vs[k]).is_placeholder && vs[k].hotkey.len() > 0;
    lemma_commands_only_has(vs, k);
    let c = commands_only(vs);
    let j = choose|j: int| 0 <= j < c.len() && c[j] == vs[k];
    let ss = ko.sorted@;
    let (f, g) = choose|f: Seq<int>, g: Seq<int>| #[trigger] is_bijection(f, g, shortcut_views(ss).len())
        && forall|x: int| 0 <= x < shortcut_views(ss).len() ==> shortcut_views(ss)[x] == c[#[trigger] f[x]];
    let i = g[j];
    assert(f[i] == j);
    assert(shortcut_views(ss)[i] == c[j]);
    assert(ss[i].hotkey@.len() > 0);
    lemma_max_depth_ge(ss, i);
    lemma_first_keyspace_untitled(ss);
    assert(keyspace_views(ko.keyspaces@).len() > 0);
    assert(keyspace_views(ko.keyspaces@)[0] == ko.keyspaces@[0].view());
}

/****************************************************************************
 * Typing a hotkey through the keyspaces
 ****************************************************************************/

/// No hotkey of `ss` starts another (or equals it).
pub open spec fn prefix_free_shortcuts(ss: Seq<Shortcut>) -> bool {
    forall|i: int, j: int| 0 <= i < ss.len() && 0 <= j < ss.len() && i != j ==> !is_prefix(hk(#[trigger] ss[i]), hk(#[trigger] ss[j]))
}

/// The part `q` holds `i`.
pub open spec fn holds(q: (int, int), i: int) -> bool {
    q.0 <= i < q.1
}

/// The runs lie one after another from `start` to `hi`.
proof fn lemma_runs_contiguous(ss: Seq<Shortcut>, start: int, j: int, hi: int, c: int)
    requires
        start < j <= hi,
    ensures
        runs_from(ss, start, j, hi, c)[0].0 == start,
        runs_from(ss, start, j, hi, c).last().1 == hi,
        forall|k: int| 0 <= k && k + 1 < runs_from(ss, start, j, hi, c).len()
            ==> (#[trigger] runs_from(ss, start, j, hi, c)[k]).1 == runs_from(ss, start, j, hi, c)[k + 1].0,
        forall|k: int| 0 <= k < runs_from(ss, start, j, hi, c).len() ==> (#[trigger] runs_from(ss, start, j, hi, c)[k]).0 < runs_from(ss, start, j, hi, c)[k].1,
    decreases hi - j,
{
    lemma_runs_nonempty(ss, start, j, hi, c);
    if j >= hi {
    } else if hk(ss[j])[c] != hk(ss[start])[c] {
        lemma_runs_contiguous(ss, j, j + 1, hi, c);
        lemma_runs_nonempty(ss, j, j + 1, hi, c);
        let rest = runs_from(ss, j, j + 1, hi, c);
        let all = runs_from(ss, start, j, hi, c);
        assert(all =~= seq![(start, j)] + rest);
        assert forall|k: int| 0 <= k && k + 1 < all.len() implies (#[trigger] all[k]).1 == all[k + 1].0 by {
            assert(all[k + 1] == rest[k]);
            if k > 0 {
                assert(all[k] == rest[k - 1]);
            }
        }
        assert forall|k: int| 0 <= k < all.len() implies (#[trigger] all[k]).0 < all[k].1 by {
            if k > 0 {
                assert(all[k] == rest[k - 1]);
            }
        }
    } else {
        lemma_runs_contiguous(ss, start, j + 1, hi, c);
    }
}

/// A contiguous list of parts from `start` to `hi` holds every index between.
proof fn lemma_contiguous_holds(qs: Seq<(int, int)>, start: int, hi: int, i: int)
    requires
        qs.len() > 0,
        qs[0].0 == start,
        qs.last().1 == hi,
        forall|k: int| 0 <= k && k + 1 < qs.len() ==> (#[trigger] qs[k]).1 == qs[k + 1].0,
        start <= i < hi,
    ensures
        exists|r: int| 0 <= r < qs.len() && holds(#[trigger] qs[r], i),
    decreases qs.len(),
{
    if qs.len() == 1 {
        assert(holds(qs[0], i));
    } else if i < qs[0].1 {
        assert(holds(qs[0], i));
    } else {
        let rest = qs.drop_first();
        assert forall|k: int| 0 <= k && k + 1 < rest.len() implies (#[trigger] rest[k]).1 == rest[k + 1].0 by {
            assert(qs[k + 1].1 == qs[k + 2].0);
        }
        assert(qs[0].1 == qs[1].0);
        lemma_contiguous_holds(rest, qs[0].1, hi, i);
        let r = choose|r: int| 0 <= r < rest.len() && holds(#[trigger] rest[r], i);
        assert(holds(qs[r + 1], i));
    }
}

/// Every shortcut of a partition with more than `c` chords is held by one of
/// its parts at column `c`.
proof fn lemma_split_holds(ss: Seq<Shortcut>, lo: int, hi: int, c: int, i: int)
    requires
        lo <= i < hi,
        ss[i].hotkey@.len() > c,
    ensures
        exists|r: int| 0 <= r < split(ss, lo, hi, c).len() && holds(#[trigger] split(ss, lo, hi, c)[r], i),
{
    lemma_first_long(ss, lo, hi, c);
    let f = first_long(ss, lo, hi, c);
    assert(f <= i) by {
        if i < f {
            assert(ss[i].hotkey@.len() <= c);
        }
    }
    lemma_runs_contiguous(ss, f, f + 1, hi, c);
    lemma_runs_nonempty(ss, f, f + 1, hi, c);
    lemma_contiguous_holds(runs_from(ss, f, f + 1, hi, c), f, hi, i);
    assert(split(ss, lo, hi, c) == runs_from(ss, f, f + 1, hi, c));
    let r = choose|r: int| 0 <= r < runs_from(ss, f, f + 1, hi, c).len() && holds(#[trigger] runs_from(ss, f, f + 1, hi, c)[r], i);
    assert(holds(split(ss, lo, hi, c)[r], i));
}

/// Applying a column to more partitions keeps what the fewer ones gave.
proof fn lemma_level_grows<'p, 'f>(ss: Seq<Shortcut<'p, 'f>>, todo: Seq<(int, int)>, c: int, t1: int, t2: int, acc: KsState<'p, 'f>)
    requires
        0 <= t1 <= t2,
    ensures
        ({
            let a = level(ss, todo, c, t1, acc);
            let b = level(ss, todo, c, t2, acc);
            &&& b.todo.len() >= a.todo.len() && b.todo.take(a.todo.len() as int) == a.todo
            &&& b.actions.len() >= a.actions.len() && b.actions.take(a.actions.len() as int) == a.actions
            &&& b.keyspaces.len() >= a.keyspaces.len() && b.keyspaces.take(a.keyspaces.len() as int) == a.keyspaces
        }),
    decreases t2 - t1,
{
    if t2 > t1 {
        lemma_level_grows(ss, todo, c, t1, t2 - 1, acc);
        let a = level(ss, todo, c, t1, acc);
        let m = level(ss, todo, c, t2 - 1, acc);
        let b = level(ss, todo, c, t2, acc);
        assert(b.todo.take(a.todo.len() as int) =~= m.todo.take(a.todo.len() as int));
        assert(b.actions.take(a.actions.len() as int) =~= m.actions.take(a.actions.len() as int));
        assert(b.keyspaces.take(a.keyspaces.len() as int) =~= m.keyspaces.take(a.keyspaces.len() as int));
    } else {
        let a = level(ss, todo, c, t1, acc);
        assert(a.todo.take(a.todo.len() as int) =~= a.todo);
        assert(a.actions.take(a.actions.len() as int) =~= a.actions);
        assert(a.keyspaces.take(a.keyspaces.len() as int) =~= a.keyspaces);
    }
}

/// Later columns keep what earlier ones gave.
proof fn lemma_columns_grow<'p, 'f>(ss: Seq<Shortcut<'p, 'f>>, c1: int, c2: int)
    requires
        0 <= c1 <= c2,
    ensures
        columns(ss, c2).actions.len() >= columns(ss, c1).actions.len(),
        columns(ss, c2).actions.take(columns(ss, c1).actions.len() as int) == columns(ss, c1).actions,
        columns(ss, c2).keyspaces.len() >= columns(ss, c1).keyspaces.len(),
        columns(ss, c2).keyspaces.take(columns(ss, c1).keyspaces.len() as int) == columns(ss, c1).keyspaces,
    decreases c2 - c1,
{
    if c2 > c1 {
        lemma_columns_grow(ss, c1, c2 - 1);
        let prev = columns(ss, c2 - 1);
        let base = KsState { todo: Seq::empty(), ..prev };
        lemma_level_grows(ss, prev.todo, c2 - 1, 0, prev.todo.len() as int, base);
        let a = columns(ss, c1);
        let b = columns(ss, c2);
        assert(b.actions.take(a.actions.len() as int) =~= prev.actions.take(a.actions.len() as int)) by {
            assert forall|x: int| 0 <= x < a.actions.len() implies b.actions.take(a.actions.len() as int)[x] == prev.actions.take(a.actions.len() as int)[x] by {
                assert(b.actions.take(prev.actions.len() as int)[x] == prev.actions[x]);
            }
        }
        assert(b.keyspaces.take(a.keyspaces.len() as int) =~= prev.keyspaces.take(a.keyspaces.len() as int)) by {
            assert forall|x: int| 0 <= x < a.keyspaces.len() implies b.keyspaces.take(a.keyspaces.len() as int)[x] == prev.keyspaces.take(a.keyspaces.len() as int)[x] by {
                assert(b.keyspaces.take(prev.keyspaces.len() as int)[x] == prev.keyspaces[x]);
            }
        }
    } else {
        let a = columns(ss, c1);
        assert(a.actions.take(a.actions.len() as int) =~= a.actions);
        assert(a.keyspaces.take(a.keyspaces.len() as int) =~= a.keyspaces);
    }
}

/// The parts of the partitions `todo[0..t]` are well-formed one column further.
proof fn lemma_level_ok<'p, 'f>(ss: Seq<Shortcut<'p, 'f>>, todo: Seq<(int, int)>, c: int, t: int, acc: KsState<'p, 'f>)
    requires
        sorted_shortcuts(ss),
        0 <= c,
        0 <= t <= todo.len(),
        partitions_ok(ss, todo, c),
        partitions_ok(ss, acc.todo, c + 1),
    ensures
        partitions_ok(ss, level(ss, todo, c, t, acc).todo, c + 1),
    decreases t,
{
    if t > 0 {
        lemma_level_ok(ss, todo, c, t - 1, acc);
        let prev = level(ss, todo, c, t - 1, acc);
        let p = todo[t - 1];
        lemma_split_ok(ss, p.0, p.1, c);
        let parts = split(ss, p.0, p.1, c);
        let all = prev.todo + parts;
        assert forall|k: int| 0 <= k < all.len() implies {
            let q = #[trigger] all[k];
            &&& 0 <= q.0 <= q.1 <= ss.len()
            &&& forall|i: int| q.0 <= i < q.1 ==> (#[trigger] ss[i]).hotkey@.len() >= c + 1 && hk(ss[i]).take(c + 1) == hk(ss[q.0]).take(c + 1)
        } by {
            if k < prev.todo.len() {
                assert(all[k] == prev.todo[k]);
            } else {
                assert(all[k] == parts[k - prev.todo.len()]);
            }
        }
    }
}

/// The partitions left to refine after `c` columns are well-formed, and hold
/// every shortcut with at least `c` chords.
proof fn lemma_columns_cover<'p, 'f>(ss: Seq<Shortcut<'p, 'f>>, c: int)
    requires
        sorted_shortcuts(ss),
        0 <= c,
    ensures
        partitions_ok(ss, columns(ss, c).todo, c),
        forall|i: int| 0 <= i < ss.len() && (#[trigger] ss[i]).hotkey@.len() >= c
            ==> exists|t: int| 0 <= t < columns(ss, c).todo.len() && holds(#[trigger] columns(ss, c).todo[t], i),
    decreases c,
{
    if c == 0 {
        let todo = columns(ss, 0).todo;
        assert forall|i: int| 0 <= i < ss.len() implies (#[trigger] ss[i]).hotkey@.len() >= 0 && hk(ss[i]).take(0) == hk(ss[0]).take(0) by {
            assert(hk(ss[i]).take(0) =~= hk(ss[0]).take(0));
        }
        assert forall|i: int| 0 <= i < ss.len() && (#[trigger] ss[i]).hotkey@.len() >= c
            implies exists|t: int| 0 <= t < todo.len() && holds(#[trigger] todo[t], i) by {
            assert(holds(todo[0], i));
        }
    } else {
        lemma_columns_cover(ss, c - 1);
        let prev = columns(ss, c - 1);
        let todo = prev.todo;
        let base = KsState { todo: Seq::empty(), ..prev };
        lemma_level_ok(ss, todo, c - 1, todo.len() as int, base);
        let last = level(ss, todo, c - 1, todo.len() as int, base);
        assert forall|i: int| 0 <= i < ss.len() && (#[trigger] ss[i]).hotkey@.len() >= c
            implies exists|t: int| 0 <= t < last.todo.len() && holds(#[trigger] last.todo[t], i) by {
            let t = choose|t: int| 0 <= t < todo.len() && holds(#[trigger] todo[t], i);
            let p = todo[t];
            lemma_split_holds(ss, p.0, p.1, c - 1, i);
            let parts = split(ss, p.0, p.1, c - 1);
            let r = choose|r: int| 0 <= r < parts.len() && holds(#[trigger] parts[r], i);
            let before = level(ss, todo, c - 1, t, base);
            let after = level(ss, todo, c - 1, t + 1, base);
            assert(after.todo[before.todo.len() + r] == parts[r]);
            lemma_level_grows(ss, todo, c - 1, t + 1, todo.len() as int, base);
            assert(last.todo.take(after.todo.len() as int)[before.todo.len() + r] == parts[r]);
            assert(holds(last.todo[before.todo.len() + r], i));
        }
    }
}

/// The action that typing chord `c` of `ss[i]` must find: the command of
/// `ss[i]` on its last chord, else the way to the keyspace titled by its
/// first `c + 1` chords.
pub open spec fn reaches<'p, 'f>(ss: Seq<Shortcut<'p, 'f>>, i: int, c: int, a: ActionModel<'p, 'f>) -> bool {
    match a {
        ActionModel::Command(trigger, s) => c + 1 == ss[i].hotkey@.len() && trigger == ss[i].hotkey@[c] && s == ss[i],
        ActionModel::SetState(t) => c + 1 < ss[i].hotkey@.len() && chord_keys(t) == hk(ss[i]).take(c + 1),
    }
}

/// There is a keyspace titled by the first `c` chords of `ss[i]` whose
/// actions hold the one that chord `c` must find.
pub open spec fn reachable<'p, 'f>(ss: Seq<Shortcut<'p, 'f>>, st: KsState<'p, 'f>, i: int, c: int) -> bool {
    exists|k: int, x: int|
        0 <= k < st.keyspaces.len()
        && st.keyspaces[k].start <= x < st.keyspaces[k].end
        && 0 <= x < st.actions.len()
        && chord_keys(#[trigger] st.keyspaces[k].title) == hk(ss[i]).take(c)
        && reaches(ss, i, c, #[trigger] st.actions[x])
}

/// The action of a part holding `ss[i]` at column `c` is the one that chord
/// `c` of `ss[i]` must find.
proof fn lemma_part_reaches<'p, 'f>(ss: Seq<Shortcut<'p, 'f>>, q: (int, int), i: int, c: int)
    requires
        prefix_free_shortcuts(ss),
        0 <= c,
        0 <= q.0 <= q.1 <= ss.len(),
        holds(q, i),
        forall|j: int| q.0 <= j < q.1 ==> (#[trigger] ss[j]).hotkey@.len() >= c + 1 && hk(ss[j]).take(c + 1) == hk(ss[q.0]).take(c + 1),
    ensures
        reaches(ss, i, c, action_of(ss, q, c)),
{
    assert(ss[i].hotkey@.len() >= c + 1 && hk(ss[i]).take(c + 1) == hk(ss[q.0]).take(c + 1));
    if ss[i].hotkey@.len() == c + 1 {
        assert(hk(ss[i]) =~= hk(ss[i]).take(c + 1));
        if q.0 != i {
            assert(ss[q.0].hotkey@.len() >= c + 1);
            assert(hk(ss[q.0]).take(hk(ss[i]).len() as int) == hk(ss[i]));
            assert(is_prefix(hk(ss[i]), hk(ss[q.0])));
        }
        if q.1 > i + 1 {
            assert(ss[i + 1].hotkey@.len() >= c + 1 && hk(ss[i + 1]).take(c + 1) == hk(ss[q.0]).take(c + 1));
            assert(hk(ss[i + 1]).take(hk(ss[i]).len() as int) == hk(ss[i]));
            assert(is_prefix(hk(ss[i]), hk(ss[i + 1])));
        }
    } else {
        assert(chord_keys(ss[q.0].hotkey@.subrange(0, c + 1)) =~= hk(ss[q.0]).take(c + 1));
    }
}

/// Keeping the keyspaces and actions of `a` keeps what can be reached.
proof fn lemma_reachable_kept<'p, 'f>(ss: Seq<Shortcut<'p, 'f>>, a: KsState<'p, 'f>, b: KsState<'p, 'f>, i: int, c: int)
    requires
        reachable(ss, a, i, c),
        b.actions.len() >= a.actions.len(),
        b.actions.take(a.actions.len() as int) == a.actions,
        b.keyspaces.len() >= a.keyspaces.len(),
        b.keyspaces.take(a.keyspaces.len() as int) == a.keyspaces,
    ensures
        reachable(ss, b, i, c),
{
    let (k, x) = choose|k: int, x: int|
        0 <= k < a.keyspaces.len()
        && a.keyspaces[k].start <= x < a.keyspaces[k].end
        && 0 <= x < a.actions.len()
        && chord_keys(#[trigger] a.keyspaces[k].title) == hk(ss[i]).take(c)
        && reaches(ss, i, c, #[trigger] a.actions[x]);
    assert(b.keyspaces[k] == b.keyspaces.take(a.keyspaces.len() as int)[k]);
    assert(b.actions[x] == b.actions.take(a.actions.len() as int)[x]);
    assert(chord_keys(b.keyspaces[k].title) == hk(ss[i]).take(c));
    assert(reaches(ss, i, c, b.actions[x]));
}

proof fn lemma_column_reaches<'p, 'f>(ss: Seq<Shortcut<'p, 'f>>, i: int, c: int)
    requires
        sorted_shortcuts(ss),
        prefix_free_shortcuts(ss),
        0 <= i < ss.len(),
        0 <= c < ss[i].hotkey@.len(),
    ensures
        reachable(ss, columns(ss, c + 1), i, c),
{
    lemma_columns_cover(ss, c);
    let prev = columns(ss, c);
    let todo = prev.todo;
    let base = KsState { todo: Seq::empty(), ..prev };
    let t = choose|t: int| 0 <= t < todo.len() && holds(#[trigger] todo[t], i);
    let p = todo[t];
    lemma_split_holds(ss, p.0, p.1, c, i);
    lemma_split_ok(ss, p.0, p.1, c);
    let parts = split(ss, p.0, p.1, c);
    let r = choose|r: int| 0 <= r < parts.len() && holds(#[trigger] parts[r], i);
    let q = parts[r];
    let before = level(ss, todo, c, t, base);
    let after = level(ss, todo, c, t + 1, base);
    let k = before.keyspaces.len() as int;
    let x = before.actions.len() + r;
    assert(after.keyspaces[k].title == ss[p.0].hotkey@.subrange(0, c));
    assert(after.actions[x] == action_of(ss, q, c));
    // the title is the first `c` chords of `ss[i]`
    assert(ss[i].hotkey@.len() >= c && hk(ss[i]).take(c) == hk(ss[p.0]).take(c));
    assert(chord_keys(ss[p.0].hotkey@.subrange(0, c)) =~= hk(ss[p.0]).take(c));
    lemma_part_reaches(ss, q, i, c);
    assert(reachable(ss, after, i, c)) by {
        assert(chord_keys(after.keyspaces[k].title) == hk(ss[i]).take(c));
        assert(reaches(ss, i, c, after.actions[x]));
    }
    lemma_level_grows(ss, todo, c, t + 1, todo.len() as int, base);
    let last = level(ss, todo, c, todo.len() as int, base);
    lemma_reachable_kept(ss, after, last, i, c);
}

/// Every hotkey can be typed through the keyspaces: for each chord of it
/// there is a keyspace titled by the chords before, whose action for that
/// chord leads to the keyspace titled one chord further, or, on the last
/// chord, runs the hotkey's command. This holds of shortcuts sorted by
/// hotkey none of which starts another.
pub proof fn lemma_hotkeys_reachable<'p, 'f>(ss: Seq<Shortcut<'p, 'f>>, i: int, c: int)
    requires
        sorted_shortcuts(ss),
        prefix_free_shortcuts(ss),
        0 <= i < ss.len(),
        0 <= c < ss[i].hotkey@.len(),
    ensures
        reachable(ss, columns(ss, max_depth(ss)), i, c),
{
    lemma_column_reaches(ss, i, c);
    lemma_max_depth_ge(ss, i);
    lemma_columns_grow(ss, c + 1, max_depth(ss));
    lemma_reachable_kept(ss, columns(ss, c + 1), columns(ss, max_depth(ss)), i, c);
}

/// Two shortcuts at different places of `commands_only(vs)` come from
/// different places of `vs`.
proof fn lemma_commands_only_distinct<'f>(vs: Seq<ShortcutView<'f>>, j1: int, j2: int)
    requires
        0 <= j1 < commands_only(vs).len(),
        0 <= j2 < commands_only(vs).len(),
        j1 != j2,
    ensures
        exists|k1: int, k2: int| 0 <= k1 < vs.len() && 0 <= k2 < vs.len() && k1 != k2
            && commands_only(vs)[j1] == #[trigger] vs[k1] && commands_only(vs)[j2] == #[trigger] vs[k2],
    decreases vs.len(),
{
    let rest = commands_only(vs.drop_last());
    let n = vs.len() - 1;
    if j1 < rest.len() && j2 < rest.len() {
        lemma_commands_only_distinct(vs.drop_last(), j1, j2);
        let (k1, k2) = choose|k1: int, k2: int| 0 <= k1 < vs.drop_last().len() && 0 <= k2 < vs.drop_last().len() && k1 != k2
            && rest[j1] == #[trigger] vs.drop_last()[k1] && rest[j2] == #[trigger] vs.drop_last()[k2];
        assert(commands_only(vs)[j1] == vs[k1] && commands_only(vs)[j2] == vs[k2]);
    } else if j1 < rest.len() {
        lemma_commands_only_from(vs.drop_last(), j1);
        let k1 = choose|k1: int| 0 <= k1 < vs.drop_last().len() && rest[j1] == #[trigger] vs.drop_last()[k1];
        assert(commands_only(vs)[j1] == vs[k1] && commands_only(vs)[j2] == vs[n]);
    } else {
        lemma_commands_only_from(vs.drop_last(), j2);
        let k2 = choose|k2: int| 0 <= k2 < vs.drop_last().len() && rest[j2] == #[trigger] vs.drop_last()[k2];
        assert(commands_only(vs)[j1] == vs[n] && commands_only(vs)[j2] == vs[k2]);
    }
}

proof fn lemma_commands_only_from<'f>(vs: Seq<ShortcutView<'f>>, j: int)
    requires
        0 <= j < commands_only(vs).len(),
    ensures
        exists|k: int| 0 <= k < vs.len() && commands_only(vs)[j] == #[trigger] vs[k],
    decreases vs.len(),
{
    let rest = commands_only(vs.drop_last());
    if j < rest.len() {
        lemma_commands_only_from(vs.drop_last(), j);
        let k = choose|k: int| 0 <= k < vs.drop_last().len() && rest[j] == #[trigger] vs.drop_last()[k];
        assert(commands_only(vs)[j] == vs[k]);
    } else {
        assert(commands_only(vs)[j] == vs[vs.len() - 1]);
    }
}

/// The shortcuts that the keyspaces of a parsed file were built from start
/// no other: the parser refuses overlapping hotkeys.
pub proof fn lemma_sorted_prefix_free<'p, 'f>(ko: KeyspaceOwner<'p, 'f>, o: ShortcutOwner<'f>)
    requires
        keyspaces_of(ko, o),
        o.wf(),
        crate::parser::prefix_free(o.models()),
    ensures
        prefix_free_shortcuts(ko.sorted@),
{
    let ss = ko.sorted@;
    let vs = owner_views(o);
    let c = commands_only(vs);
    let (f, g) = choose|f: Seq<int>, g: Seq<int>| #[trigger] is_bijection(f, g, shortcut_views(ss).len())
        && forall|x: int| 0 <= x < shortcut_views(ss).len() ==> shortcut_views(ss)[x] == c[#[trigger] f[x]];
    assert forall|i: int, j: int| 0 <= i < ss.len() && 0 <= j < ss.len() && i != j
        implies !is_prefix(hk(#[trigger] ss[i]), hk(#[trigger] ss[j])) by {
        assert(shortcut_views(ss)[i] == c[f[i]] && shortcut_views(ss)[j] == c[f[j]]);
        assert(g[f[i]] == i && g[f[j]] == j);
        lemma_commands_only_distinct(vs, f[i], f[j]);
        let (k1, k2) = choose|k1: int, k2: int| 0 <= k1 < vs.len() && 0 <= k2 < vs.len() && k1 != k2
            && c[f[i]] == #[trigger] vs[k1] && c[f[j]] == #[trigger] vs[k2];
        assert(o.models()[k1].hotkey == chord_keys(vs[k1].hotkey));
        assert(o.models()[k2].hotkey == chord_keys(vs[k2].hotkey));
        assert(hk(ss[i]) == chord_keys(shortcut_views(ss)[i].hotkey));
        assert(hk(ss[j]) == chord_keys(shortcut_views(ss)[j].hotkey));
    }
}

/// Every hotkey of a parsed file that is not a placeholder can be typed
/// through its keyspaces: for each chord there is a keyspace titled by the
/// chords before it, with an action for that chord that leads to the keyspace
/// titled one chord further, or, on the last chord, runs the command.
pub proof fn lemma_parsed_hotkeys_reachable<'p, 'f>(ko: KeyspaceOwner<'p, 'f>, o: ShortcutOwner<'f>, i: int, c: int)
    requires
        keyspaces_of(ko, o),
        o.wf(),
        crate::parser::prefix_free(o.models()),
        0 <= i < ko.sorted@.len(),
        0 <= c < ko.sorted@[i].hotkey@.len(),
    ensures
        exists|k: int, x: int|
            0 <= k < ko.keyspaces@.len()
            && ko.keyspaces@[k].action_start <= x < ko.keyspaces@[k].action_end
            && chord_keys(#[trigger] ko.keyspaces@[k].title@) == hk(ko.sorted@[i]).take(c)
            && reaches(ko.sorted@, i, c, (#[trigger] ko.all_actions@[x]).view()),
{
    let ss = ko.sorted@;
    lemma_sorted_prefix_free(ko, o);
    lemma_hotkeys_reachable(ss, i, c);
    let st = columns(ss, max_depth(ss));
    let (k, x) = choose|k: int, x: int|
        0 <= k < st.keyspaces.len()
        && st.keyspaces[k].start <= x < st.keyspaces[k].end
        && 0 <= x < st.actions.len()
        && chord_keys(#[trigger] st.keyspaces[k].title) == hk(ss[i]).take(c)
        && reaches(ss, i, c, #[trigger] st.actions[x]);
    assert(keyspace_views(ko.keyspaces@)[k] == ko.keyspaces@[k].view());
    assert(action_views(ko.all_actions@)[x] == ko.all_actions@[x].view());
    assert(chord_keys(ko.keyspaces@[k].title@) == hk(ko.sorted@[i]).take(c));
}

/****************************************************************************
 * Commands of the actions
 ****************************************************************************/

/// Every command of the actions is run by one of the sorted shortcuts, and
/// triggered by the last chord of its hotkey.
pub open spec fn commands_from<'p, 'f>(ss: Seq<Shortcut<'p, 'f>>, actions: Seq<ActionModel<'p, 'f>>) -> bool {
    forall|x: int| 0 <= x < actions.len() ==> (#[trigger] actions[x] matches ActionModel::Command(t, s)
        ==> exists|j: int| 0 <= j < ss.len() && s == #[trigger] ss[j] && s.hotkey@.len() > 0 && t == s.hotkey@.last())
}

proof fn lemma_level_commands<'p, 'f>(ss: Seq<Shortcut<'p, 'f>>, todo: Seq<(int, int)>, c: int, t: int, acc: KsState<'p, 'f>)
    requires
        sorted_shortcuts(ss),
        0 <= c,
        0 <= t <= todo.len(),
        partitions_ok(ss, todo, c),
        commands_from(ss, acc.actions),
    ensures
        commands_from(ss, level(ss, todo, c, t, acc).actions),
    decreases t,
{
    if t > 0 {
        lemma_level_commands(ss, todo, c, t - 1, acc);
        let prev = level(ss, todo, c, t - 1, acc);
        let p = todo[t - 1];
        lemma_split_ok(ss, p.0, p.1, c);
        let parts = split(ss, p.0, p.1, c);
        let all = prev.actions + actions_of(ss, parts, c);
        assert forall|x: int| 0 <= x < all.len() implies (#[trigger] all[x] matches ActionModel::Command(t, s)
            ==> exists|j: int| 0 <= j < ss.len() && s == #[trigger] ss[j] && s.hotkey@.len() > 0 && t == s.hotkey@.last()) by {
            if x >= prev.actions.len() {
                let q = parts[x - prev.actions.len()];
                assert(all[x] == action_of(ss, q, c));
                assert(0 <= q.0 < ss.len());
                if all[x] is Command {
                    assert(all[x]->Command_1 == ss[q.0]);
                    assert(ss[q.0].hotkey@.len() == c + 1);
                    assert(all[x]->Command_0 == ss[q.0].hotkey@.last());
                }
            } else {
                assert(all[x] == prev.actions[x]);
            }
        }
    }
}

proof fn lemma_columns_commands<'p, 'f>(ss: Seq<Shortcut<'p, 'f>>, c: int)
    requires
        sorted_shortcuts(ss),
        0 <= c,
    ensures
        commands_from(ss, columns(ss, c).actions),
    decreases c,
{
    if c > 0 {
        lemma_columns_commands(ss, c - 1);
        lemma_columns_cover(ss, c - 1);
        let prev = columns(ss, c - 1);
        lemma_level_commands(ss, prev.todo, c - 1, prev.todo.len() as int, KsState { todo: Seq::empty(), ..prev });
    }
}

/// Every command among the actions is the command of one of the sorted
/// shortcuts, triggered by the last chord of its hotkey (with
/// `lemma_parsed_hotkeys_reachable`: the commands of the actions are those
/// of the shortcuts).
pub proof fn lemma_commands_of_shortcuts<'p, 'f>(ko: KeyspaceOwner<'p, 'f>, o: ShortcutOwner<'f>)
    requires
        keyspaces_of(ko, o),
    ensures
        forall|x: int| 0 <= x < ko.all_actions@.len() ==> (#[trigger] ko.all_actions@[x] matches Action::Command(t, s)
            ==> exists|j: int| 0 <= j < ko.sorted@.len() && s == #[trigger] ko.sorted@[j] && s.hotkey@.len() > 0 && t == s.hotkey@.last()),
{
    let ss = ko.sorted@;
    lemma_columns_commands(ss, max_depth(ss));
    assert forall|x: int| 0 <= x < ko.all_actions@.len() implies (#[trigger] ko.all_actions@[x] matches Action::Command(t, s)
        ==> exists|j: int| 0 <= j < ss.len() && s == #[trigger] ss[j] && s.hotkey@.len() > 0 && t == s.hotkey@.last()) by {
        assert(action_views(ko.all_actions@)[x] == ko.all_actions@[x].view());
    }
}

/****************************************************************************
 * One command for each shortcut
 ****************************************************************************/

/// The parts `qs` are in order and do not overlap.
pub open spec fn parts_ordered(qs: Seq<(int, int)>) -> bool {
    &&& forall|k: int| 0 <= k < qs.len() ==> (#[trigger] qs[k]).0 <= qs[k].1
    &&& forall|k1: int, k2: int| 0 <= k1 < k2 < qs.len() ==> (#[trigger] qs[k1]).1 <= (#[trigger] qs[k2]).0
}

/// No two commands of `actions` run the same shortcut.
pub open spec fn commands_unique<'p, 'f>(actions: Seq<ActionModel<'p, 'f>>) -> bool {
    forall|x1: int, x2: int| 0 <= x1 < x2 < actions.len() && actions[x1] is Command && actions[x2] is Command
        ==> (#[trigger] actions[x1])->Command_1 != (#[trigger] actions[x2])->Command_1
}

/// The shortcuts of the commands of `actions` have at most `c` chords.
pub open spec fn commands_shorter<'p, 'f>(actions: Seq<ActionModel<'p, 'f>>, c: int) -> bool {
    forall|x: int| 0 <= x < actions.len() && actions[x] is Command ==> (#[trigger] actions[x])->Command_1.hotkey@.len() <= c
}

proof fn lemma_chain(qs: Seq<(int, int)>, k1: int, k2: int)
    requires
        0 <= k1 < k2 < qs.len(),
        forall|k: int| 0 <= k && k + 1 < qs.len() ==> (#[trigger] qs[k]).1 == qs[k + 1].0,
        forall|k: int| 0 <= k < qs.len() ==> (#[trigger] qs[k]).0 < qs[k].1,
    ensures
        qs[k1].1 <= qs[k2].0,
    decreases k2 - k1,
{
    if k2 > k1 + 1 {
        lemma_chain(qs, k1, k2 - 1);
        assert(qs[k2 - 1].1 == qs[k2].0);
    } else {
        assert(qs[k1].1 == qs[k1 + 1].0);
    }
}

/// The parts of a partition at a column are in order, and lie within it.
proof fn lemma_split_ordered(ss: Seq<Shortcut>, lo: int, hi: int, c: int)
    requires
        lo <= hi,
    ensures
        parts_ordered(split(ss, lo, hi, c)),
        forall|k: int| 0 <= k < split(ss, lo, hi, c).len() ==> lo <= (#[trigger] split(ss, lo, hi, c)[k]).0 && split(ss, lo, hi, c)[k].1 <= hi,
        forall|k: int| 0 <= k < split(ss, lo, hi, c).len() ==> (#[trigger] split(ss, lo, hi, c)[k]).0 < split(ss, lo, hi, c)[k].1,
{
    lemma_first_long(ss, lo, hi, c);
    let f = first_long(ss, lo, hi, c);
    if f < hi {
        lemma_runs_contiguous(ss, f, f + 1, hi, c);
        let qs = runs_from(ss, f, f + 1, hi, c);
        assert(split(ss, lo, hi, c) == qs);
        assert forall|k1: int, k2: int| 0 <= k1 < k2 < qs.len() implies (#[trigger] qs[k1]).1 <= (#[trigger] qs[k2]).0 by {
            lemma_chain(qs, k1, k2);
        }
        assert forall|k: int| 0 <= k < qs.len() implies lo <= (#[trigger] qs[k]).0 && qs[k].1 <= hi by {
            if k > 0 {
                lemma_chain(qs, 0, k);
            }
            if k < qs.len() - 1 {
                lemma_chain(qs, k, qs.len() - 1);
            }
        }
    }
}

/// Applying a column to ordered partitions: the new partitions are in order,
/// end where the partitions read so far end, and the new actions are those
/// of the new partitions, one for each.
proof fn lemma_level_ordered<'p, 'f>(ss: Seq<Shortcut<'p, 'f>>, todo: Seq<(int, int)>, c: int, t: int, acc: KsState<'p, 'f>)
    requires
        0 <= t <= todo.len(),
        parts_ordered(todo),
        acc.todo.len() == 0,
    ensures
        parts_ordered(level(ss, todo, c, t, acc).todo),
        t > 0 ==> forall|k: int| 0 <= k < level(ss, todo, c, t, acc).todo.len() ==> (#[trigger] level(ss, todo, c, t, acc).todo[k]).1 <= todo[t - 1].1,
        level(ss, todo, c, t, acc).actions == acc.actions + actions_of(ss, level(ss, todo, c, t, acc).todo, c),
    decreases t,
{
    if t == 0 {
        assert(acc.actions + actions_of(ss, acc.todo, c) =~= acc.actions);
    } else {
        lemma_level_ordered(ss, todo, c, t - 1, acc);
        let prev = level(ss, todo, c, t - 1, acc);
        let p = todo[t - 1];
        lemma_split_ordered(ss, p.0, p.1, c);
        let parts = split(ss, p.0, p.1, c);
        let all = prev.todo + parts;
        assert(level(ss, todo, c, t, acc).todo == all);
        assert forall|k: int| 0 <= k < all.len() implies (#[trigger] all[k]).0 <= all[k].1 && all[k].1 <= p.1 by {
            if k < prev.todo.len() {
                assert(all[k] == prev.todo[k]);
                if t > 1 {
                    assert(todo[t - 2].1 <= todo[t - 1].0);
                }
            } else {
                assert(all[k] == parts[k - prev.todo.len()]);
            }
        }
        assert forall|k1: int, k2: int| 0 <= k1 < k2 < all.len() implies (#[trigger] all[k1]).1 <= (#[trigger] all[k2]).0 by {
            if k2 < prev.todo.len() {
                assert(all[k1] == prev.todo[k1] && all[k2] == prev.todo[k2]);
            } else if k1 >= prev.todo.len() {
                assert(all[k1] == parts[k1 - prev.todo.len()] && all[k2] == parts[k2 - prev.todo.len()]);
            } else {
                assert(all[k1] == prev.todo[k1] && all[k2] == parts[k2 - prev.todo.len()]);
                if t > 1 {
                    assert(todo[t - 2].1 <= todo[t - 1].0);
                }
            }
        }
        assert(actions_of(ss, all, c) =~= actions_of(ss, prev.todo, c) + actions_of(ss, parts, c));
        assert(level(ss, todo, c, t, acc).actions =~= acc.actions + actions_of(ss, all, c));
    }
}

/// The commands added at column `c` run shortcuts of `c + 1` chords.
proof fn lemma_level_shorter<'p, 'f>(ss: Seq<Shortcut<'p, 'f>>, todo: Seq<(int, int)>, c: int, t: int, acc: KsState<'p, 'f>)
    requires
        0 <= c,
        0 <= t <= todo.len(),
        commands_shorter(acc.actions, c + 1),
    ensures
        commands_shorter(level(ss, todo, c, t, acc).actions, c + 1),
    decreases t,
{
    if t > 0 {
        lemma_level_shorter(ss, todo, c, t - 1, acc);
        let prev = level(ss, todo, c, t - 1, acc);
        let p = todo[t - 1];
        let parts = split(ss, p.0, p.1, c);
        let all = prev.actions + actions_of(ss, parts, c);
        assert forall|x: int| 0 <= x < all.len() && all[x] is Command implies (#[trigger] all[x])->Command_1.hotkey@.len() <= c + 1 by {
            if x < prev.actions.len() {
                assert(all[x] == prev.actions[x]);
            } else {
                assert(all[x] == action_of(ss, parts[x - prev.actions.len()], c));
            }
        }
    }
}

/// After `c` columns: the partitions are in order, the commands run shortcuts
/// of at most `c` chords, and no two run the same shortcut.
proof fn lemma_columns_unique<'p, 'f>(ss: Seq<Shortcut<'p, 'f>>, c: int)
    requires
        sorted_shortcuts(ss),
        prefix_free_shortcuts(ss),
        0 <= c,
    ensures
        parts_ordered(columns(ss, c).todo),
        commands_shorter(columns(ss, c).actions, c),
        commands_unique(columns(ss, c).actions),
    decreases c,
{
    if c > 0 {
        lemma_columns_unique(ss, c - 1);
        lemma_columns_cover(ss, c - 1);
        let prev = columns(ss, c - 1);
        let base = KsState { todo: Seq::empty(), ..prev };
        let n = prev.todo.len() as int;
        lemma_level_ordered(ss, prev.todo, c - 1, n, base);
        lemma_level_shorter(ss, prev.todo, c - 1, n, base);
        lemma_level_ok(ss, prev.todo, c - 1, n, base);
        let next = level(ss, prev.todo, c - 1, n, base);
        let fresh = actions_of(ss, next.todo, c - 1);
        assert(next.actions == prev.actions + fresh);
        assert forall|x1: int, x2: int| 0 <= x1 < x2 < next.actions.len() && next.actions[x1] is Command && next.actions[x2] is Command
            implies (#[trigger] next.actions[x1])->Command_1 != (#[trigger] next.actions[x2])->Command_1 by {
            let m = prev.actions.len() as int;
            if x2 < m {
                assert(next.actions[x1] == prev.actions[x1] && next.actions[x2] == prev.actions[x2]);
            } else {
                let q2 = next.todo[x2 - m];
                assert(next.actions[x2] == action_of(ss, q2, c - 1));
                assert(next.actions[x2]->Command_1.hotkey@.len() == c);
                if x1 < m {
                    assert(next.actions[x1] == prev.actions[x1]);
                    assert(next.actions[x1]->Command_1.hotkey@.len() <= c - 1);
                } else {
                    let q1 = next.todo[x1 - m];
                    assert(next.actions[x1] == action_of(ss, q1, c - 1));
                    assert(q1.1 <= q2.0);
                    assert(0 <= q1.0 < q2.0 < ss.len());
                    if ss[q1.0] == ss[q2.0] {
                        assert(hk(ss[q2.0]).take(hk(ss[q1.0]).len() as int) =~= hk(ss[q1.0]));
                        assert(is_prefix(hk(ss[q1.0]), hk(ss[q2.0])));
                    }
                }
            }
        }
    }
}

/// Each shortcut's command is among the actions at most once (with
/// `lemma_hotkeys_reachable`: exactly once). This holds of shortcuts sorted
/// by hotkey none of which starts another.
pub proof fn lemma_one_command_each<'p, 'f>(ss: Seq<Shortcut<'p, 'f>>)
    requires
        sorted_shortcuts(ss),
        prefix_free_shortcuts(ss),
    ensures
        commands_unique(columns(ss, max_depth(ss)).actions),
{
    lemma_max_depth(ss);
    lemma_columns_unique(ss, max_depth(ss));
}

/// In the keyspaces of parsed shortcuts no two actions run the command of the
/// same shortcut (with `lemma_parsed_hotkeys_reachable` on the last chord:
/// each shortcut's command is run by exactly one action).
pub proof fn lemma_parsed_one_command_each<'p, 'f>(ko: KeyspaceOwner<'p, 'f>, o: ShortcutOwner<'f>)
    requires
        keyspaces_of(ko, o),
        o.wf(),
        crate::parser::prefix_free(o.models()),
    ensures
        forall|x1: int, x2: int| 0 <= x1 < x2 < ko.all_actions@.len()
            && (#[trigger] ko.all_actions@[x1]) is Command && (#[trigger] ko.all_actions@[x2]) is Command
            ==> ko.all_actions@[x1]->Command_1 != ko.all_actions@[x2]->Command_1,
{
    lemma_sorted_prefix_free(ko, o);
    lemma_one_command_each(ko.sorted@);
    let acts = columns(ko.sorted@, max_depth(ko.sorted@)).actions;
    assert forall|x1: int, x2: int| 0 <= x1 < x2 < ko.all_actions@.len()
        && (#[trigger] ko.all_actions@[x1]) is Command && (#[trigger] ko.all_actions@[x2]) is Command
        implies ko.all_actions@[x1]->Command_1 != ko.all_actions@[x2]->Command_1 by {
        assert(action_views(ko.all_actions@)[x1] == ko.all_actions@[x1].view());
        assert(action_views(ko.all_actions@)[x2] == ko.all_actions@[x2].view());
        assert(acts[x1] is Command && acts[x2] is Command);
    }
}

/****************************************************************************
 * The keyspaces are determined by the shortcuts
 ****************************************************************************/

/// Two actions alike in contents: the same title, or the same trigger and a
/// shortcut of the same contents.
pub open spec fn same_action<'p, 'f>(a: ActionModel<'p, 'f>, b: ActionModel<'p, 'f>) -> bool {
    match (a, b) {
        (ActionModel::SetState(t1), ActionModel::SetState(t2)) => t1 == t2,
        (ActionModel::Command(c1, s1), ActionModel::Command(c2, s2)) => c1 == c2 && shortcut_view(s1) == shortcut_view(s2),
        _ => false,
    }
}

/// Two states of the construction alike in contents.
pub open spec fn same_state<'p, 'f>(a: KsState<'p, 'f>, b: KsState<'p, 'f>) -> bool {
    &&& a.todo == b.todo
    &&& a.keyspaces == b.keyspaces
    &&& a.actions.len() == b.actions.len()
    &&& forall|x: int| 0 <= x < a.actions.len() ==> same_action(#[trigger] a.actions[x], b.actions[x])
}

proof fn lemma_alike_at<'p, 'f>(ss1: Seq<Shortcut<'p, 'f>>, ss2: Seq<Shortcut<'p, 'f>>, i: int)
    requires
        shortcut_views(ss1) == shortcut_views(ss2),
        0 <= i < ss1.len(),
    ensures
        ss1.len() == ss2.len(),
        shortcut_view(ss1[i]) == shortcut_view(ss2[i]),
        ss1[i].hotkey@ == ss2[i].hotkey@,
        hk(ss1[i]) == hk(ss2[i]),
{
    assert(shortcut_views(ss1).len() == ss1.len() && shortcut_views(ss2).len() == ss2.len());
    assert(shortcut_views(ss1)[i] == shortcut_view(ss1[i]));
    assert(shortcut_views(ss2)[i] == shortcut_view(ss2[i]));
}

proof fn lemma_first_long_same<'p, 'f>(ss1: Seq<Shortcut<'p, 'f>>, ss2: Seq<Shortcut<'p, 'f>>, i: int, hi: int, c: int)
    requires
        shortcut_views(ss1) == shortcut_views(ss2),
        0 <= i,
        hi <= ss1.len(),
    ensures
        first_long(ss1, i, hi, c) == first_long(ss2, i, hi, c),
    decreases hi - i,
{
    if i < hi {
        lemma_alike_at(ss1, ss2, i);
        lemma_first_long_same(ss1, ss2, i + 1, hi, c);
    }
}

proof fn lemma_runs_same<'p, 'f>(ss1: Seq<Shortcut<'p, 'f>>, ss2: Seq<Shortcut<'p, 'f>>, start: int, j: int, hi: int, c: int)
    requires
        shortcut_views(ss1) == shortcut_views(ss2),
        0 <= start <= j,
        hi <= ss1.len(),
    ensures
        runs_from(ss1, start, j, hi, c) == runs_from(ss2, start, j, hi, c),
    decreases hi - j,
{
    if j < hi {
        lemma_alike_at(ss1, ss2, start);
        lemma_alike_at(ss1, ss2, j);
        if hk(ss1[j])[c] != hk(ss1[start])[c] {
            lemma_runs_same(ss1, ss2, j, j + 1, hi, c);
        } else {
            lemma_runs_same(ss1, ss2, start, j + 1, hi, c);
        }
    }
}

proof fn lemma_split_same<'p, 'f>(ss1: Seq<Shortcut<'p, 'f>>, ss2: Seq<Shortcut<'p, 'f>>, lo: int, hi: int, c: int)
    requires
        shortcut_views(ss1) == shortcut_views(ss2),
        0 <= lo <= hi <= ss1.len(),
    ensures
        split(ss1, lo, hi, c) == split(ss2, lo, hi, c),
{
    lemma_first_long_same(ss1, ss2, lo, hi, c);
    lemma_first_long(ss1, lo, hi, c);
    let f = first_long(ss1, lo, hi, c);
    if f < hi {
        lemma_runs_same(ss1, ss2, f, f + 1, hi, c);
    }
}

proof fn lemma_level_same<'p, 'f>(
    ss1: Seq<Shortcut<'p, 'f>>,
    ss2: Seq<Shortcut<'p, 'f>>,
    todo: Seq<(int, int)>,
    c: int,
    t: int,
    acc1: KsState<'p, 'f>,
    acc2: KsState<'p, 'f>,
)
    requires
        shortcut_views(ss1) == shortcut_views(ss2),
        0 <= t <= todo.len(),
        forall|k: int| 0 <= k < todo.len() ==> 0 <= (#[trigger] todo[k]).0 <= todo[k].1 <= ss1.len(),
        same_state(acc1, acc2),
    ensures
        same_state(level(ss1, todo, c, t, acc1), level(ss2, todo, c, t, acc2)),
    decreases t,
{
    if t > 0 {
        lemma_level_same(ss1, ss2, todo, c, t - 1, acc1, acc2);
        let prev1 = level(ss1, todo, c, t - 1, acc1);
        let prev2 = level(ss2, todo, c, t - 1, acc2);
        let p = todo[t - 1];
        lemma_split_same(ss1, ss2, p.0, p.1, c);
        lemma_split_ordered(ss1, p.0, p.1, c);
        let parts = split(ss1, p.0, p.1, c);
        let next1 = level(ss1, todo, c, t, acc1);
        let next2 = level(ss2, todo, c, t, acc2);
        if parts.len() > 0 {
            assert(p.0 <= parts[0].0 < parts[0].1 <= p.1);
            lemma_alike_at(ss1, ss2, p.0);
        }
        assert(next1.keyspaces == next2.keyspaces);
        assert forall|x: int| 0 <= x < next1.actions.len() implies same_action(#[trigger] next1.actions[x], next2.actions[x]) by {
            if x < prev1.actions.len() {
                assert(next1.actions[x] == prev1.actions[x] && next2.actions[x] == prev2.actions[x]);
            } else {
                let q = parts[x - prev1.actions.len()];
                assert(next1.actions[x] == action_of(ss1, q, c));
                assert(next2.actions[x] == action_of(ss2, q, c));
                lemma_alike_at(ss1, ss2, q.0);
            }
        }
    }
}

proof fn lemma_columns_same<'p, 'f>(ss1: Seq<Shortcut<'p, 'f>>, ss2: Seq<Shortcut<'p, 'f>>, c: int)
    requires
        shortcut_views(ss1) == shortcut_views(ss2),
        sorted_shortcuts(ss1),
        0 <= c,
    ensures
        same_state(columns(ss1, c), columns(ss2, c)),
    decreases c,
{
    assert(shortcut_views(ss1).len() == ss1.len() && shortcut_views(ss2).len() == ss2.len());
    if c > 0 {
        lemma_columns_same(ss1, ss2, c - 1);
        lemma_columns_cover(ss1, c - 1);
        let prev1 = columns(ss1, c - 1);
        let prev2 = columns(ss2, c - 1);
        let base1 = KsState { todo: Seq::empty(), ..prev1 };
        let base2 = KsState { todo: Seq::empty(), ..prev2 };
        assert forall|k: int| 0 <= k < prev1.todo.len() implies 0 <= (#[trigger] prev1.todo[k]).0 <= prev1.todo[k].1 <= ss1.len() by {}
        lemma_level_same(ss1, ss2, prev1.todo, c - 1, prev1.todo.len() as int, base1, base2);
    }
}

proof fn lemma_max_depth_same<'p, 'f>(ss1: Seq<Shortcut<'p, 'f>>, ss2: Seq<Shortcut<'p, 'f>>)
    requires
        shortcut_views(ss1) == shortcut_views(ss2),
    ensures
        max_depth(ss1) == max_depth(ss2),
    decreases ss1.len(),
{
    assert(shortcut_views(ss1).len() == ss1.len() && shortcut_views(ss2).len() == ss2.len());
    if ss1.len() > 0 {
        assert(shortcut_views(ss1.drop_last()) =~= shortcut_views(ss1).drop_last());
        assert(shortcut_views(ss2.drop_last()) =~= shortcut_views(ss2).drop_last());
        lemma_max_depth_same(ss1.drop_last(), ss2.drop_last());
        lemma_alike_at(ss1, ss2, ss1.len() - 1);
    }
}

/// With no hotkey starting another, the sorted shortcuts of any two keyspace
/// owners of the same shortcuts are alike.
proof fn lemma_sorted_views_unique<'p, 'f>(ko1: KeyspaceOwner<'p, 'f>, ko2: KeyspaceOwner<'p, 'f>, o: ShortcutOwner<'f>)
    requires
        keyspaces_of(ko1, o),
        keyspaces_of(ko2, o),
        o.wf(),
        crate::parser::prefix_free(o.models()),
    ensures
        shortcut_views(ko1.sorted@) == shortcut_views(ko2.sorted@),
{
    lemma_sorted_prefix_free(ko1, o);
    lemma_sorted_prefix_free(ko2, o);
    let s1 = ko1.sorted@;
    let s2 = ko2.sorted@;
    let a1 = shortcut_views(s1);
    let a2 = shortcut_views(s2);
    let c = commands_only(owner_views(o));
    let (f1, g1) = choose|f: Seq<int>, g: Seq<int>| #[trigger] is_bijection(f, g, a1.len())
        && forall|x: int| 0 <= x < a1.len() ==> a1[x] == c[#[trigger] f[x]];
    let (f2, g2) = choose|f: Seq<int>, g: Seq<int>| #[trigger] is_bijection(f, g, a2.len())
        && forall|x: int| 0 <= x < a2.len() ==> a2[x] == c[#[trigger] f[x]];
    let n = a1.len() as int;
    assert(a1.len() == s1.len() && a2.len() == s2.len());
    let h = Seq::new(n as nat, |x: int| g2[f1[x]]);
    assert forall|y: int| 0 <= y < n implies 0 <= #[trigger] h[y] < n by {}
    assert forall|y: int, z: int| 0 <= y < z < n implies #[trigger] h[y] < #[trigger] h[z] by {
        let i = f1[y];
        let j = f1[z];
        assert(g1[i] == y && g1[j] == z);
        assert(a1[y] == shortcut_view(s1[y]) && a1[z] == shortcut_view(s1[z]));
        assert(a1[y] == c[i] && a1[z] == c[j]);
        assert(hotkey_le(hk(s1[y]), hk(s1[z])));
        assert(!is_prefix(hk(s1[y]), hk(s1[z])));
        let y2 = g2[i];
        let z2 = g2[j];
        assert(f2[y2] == i && f2[z2] == j);
        assert(a2[y2] == shortcut_view(s2[y2]) && a2[z2] == shortcut_view(s2[z2]));
        assert(hk(s2[y2]) == hk(s1[y]) && hk(s2[z2]) == hk(s1[z]));
        if z2 < y2 {
            assert(hotkey_le(hk(s2[z2]), hk(s2[y2])));
            lemma_hotkey_le_antisym(hk(s1[y]), hk(s1[z]));
            assert(hk(s1[z]).take(hk(s1[y]).len() as int) =~= hk(s1[y]));
        }
        if z2 == y2 {
            assert(i == j);
        }
    }
    assert forall|x: int| 0 <= x < n implies a1[x] == a2[x] by {
        crate::parser::lemma_increasing_identity(h, n, x);
        assert(g2[f1[x]] == x);
        assert(f2[g2[f1[x]]] == f1[x]);
    }
    assert(a1 =~= a2);
}

/// The keyspaces of shortcuts none of which starts another are determined by
/// them: any two keyspace owners of the same shortcuts have the same keyspaces,
/// and actions alike one for one (same titles, triggers and shortcut contents).
pub proof fn lemma_keyspaces_unique<'p, 'f>(ko1: KeyspaceOwner<'p, 'f>, ko2: KeyspaceOwner<'p, 'f>, o: ShortcutOwner<'f>)
    requires
        keyspaces_of(ko1, o),
        keyspaces_of(ko2, o),
        o.wf(),
        crate::parser::prefix_free(o.models()),
    ensures
        keyspace_views(ko1.keyspaces@) == keyspace_views(ko2.keyspaces@),
        ko1.all_actions@.len() == ko2.all_actions@.len(),
        forall|x: int| 0 <= x < ko1.all_actions@.len() ==> same_action((#[trigger] ko1.all_actions@[x]).view(), ko2.all_actions@[x].view()),
{
    lemma_sorted_views_unique(ko1, ko2, o);
    let s1 = ko1.sorted@;
    let s2 = ko2.sorted@;
    lemma_max_depth_same(s1, s2);
    lemma_max_depth(s1);
    lemma_columns_same(s1, s2, max_depth(s1));
    assert(action_views(ko1.all_actions@).len() == ko1.all_actions@.len());
    assert(action_views(ko2.all_actions@).len() == ko2.all_actions@.len());
    assert forall|x: int| 0 <= x < ko1.all_actions@.len() implies same_action((#[trigger] ko1.all_actions@[x]).view(), ko2.all_actions@[x].view()) by {
        assert(action_views(ko1.all_actions@)[x] == ko1.all_actions@[x].view());
        assert(action_views(ko2.all_actions@)[x] == ko2.all_actions@[x].view());
    }
}

/// The sections of the commands of the actions lie in their text.
pub open spec fn action_commands_ok(actions: Seq<Action>) -> bool {
    forall|x: int| 0 <= x < actions.len() ==> (#[trigger] actions[x] matches Action::Command(_, s)
        ==> forall|y: int| 0 <= y < s.command@.len() ==> (#[trigger] s.command@[y]).wf())
}

/// The keyspaces of shortcuts whose sections lie in their text have commands
/// whose sections do too.
pub proof fn lemma_action_commands_ok<'p, 'f>(ko: KeyspaceOwner<'p, 'f>, o: ShortcutOwner<'f>)
    requires
        keyspaces_of(ko, o),
        o.wf(),
        o.spans_ok(),
    ensures
        action_commands_ok(ko.all_actions@),
{
    let ss = ko.sorted@;
    let vs = owner_views(o);
    let cs = commands_only(vs);
    lemma_columns_commands(ss, max_depth(ss));
    let (f, g) = choose|f: Seq<int>, g: Seq<int>| #[trigger] is_bijection(f, g, shortcut_views(ss).len())
        && forall|x: int| 0 <= x < shortcut_views(ss).len() ==> shortcut_views(ss)[x] == cs[#[trigger] f[x]];
    assert forall|x: int| 0 <= x < ko.all_actions@.len() implies (#[trigger] ko.all_actions@[x] matches Action::Command(_, s)
        ==> forall|y: int| 0 <= y < s.command@.len() ==> (#[trigger] s.command@[y]).wf()) by {
        if ko.all_actions@[x] is Command {
            let s = ko.all_actions@[x]->Command_1;
            assert(action_views(ko.all_actions@)[x] == ko.all_actions@[x].view());
            let j = choose|j: int| 0 <= j < ss.len() && s == #[trigger] ss[j];
            assert(shortcut_views(ss)[j] == cs[f[j]]);
            lemma_commands_only_from(vs, f[j]);
            let k = choose|k: int| 0 <= k < vs.len() && cs[f[j]] == #[trigger] vs[k];
            let p = o.shortcuts@[k];
            assert(o.pointer_ok(p));
            assert forall|y: int| 0 <= y < s.command@.len() implies (#[trigger] s.command@[y]).wf() by {
                assert(s.command@ == vs[k].command);
                assert(vs[k].command[y] == o.scripts@[p.body_start + y]);
                assert(crate::lexer::span_ok(o.source, o.scripts@[p.body_start + y]));
            }
        }
    }
}

} // verus!
