use vstd::prelude::*;
use vstd::string::*;

verus! {

/// `list` joined with `sep` between neighbours.
pub open spec fn join(list: Seq<Seq<char>>, sep: Seq<char>) -> Seq<char>
    decreases list.len(),
{
    if list.len() == 0 {
        Seq::empty()
    } else if list.len() == 1 {
        list[0]
    } else {
        join(list.drop_last(), sep) + sep + list.last()
    }
}

/// `list` written one after another.
pub open spec fn concat(list: Seq<Seq<char>>) -> Seq<char>
    decreases list.len(),
{
    if list.len() == 0 {
        Seq::empty()
    } else {
        concat(list.drop_last()) + list.last()
    }
}

/// The characters of each string of `list`.
pub open spec fn views(list: Seq<&str>) -> Seq<Seq<char>> {
    list.map_values(|s: &str| s@)
}

/// The characters of `s`, collected into a vector.
pub fn to_chars(s: &str) -> (v: Vec<char>)
    ensures
        v@ == s@,
{
    broadcast use vstd::string::group_string_axioms;
    let mut v: Vec<char> = Vec::new();
    for c in it: s.chars()
        invariant
            v@ == it.seq().take(it.index() as int),
            it.seq() == s@,
    {
        v.push(c);
    }
    v
}

/// Appends `part` to `buffer`.
pub fn push_str(buffer: &mut String, part: &str)
    ensures
        final(buffer)@ == old(buffer)@ + part@,
{
    buffer.append(part);
}

/// Appends one character: calls `String::push`, whose documentation says
/// that it appends the character to the end of the string. That is what the
/// contract claims, unproved.
#[verifier::external_body]
pub(crate) fn push_char(buffer: &mut String, c: char)
    ensures
        final(buffer)@ == old(buffer)@.push(c),
{
    buffer.push(c);
}

/// The strings of `list` written one after another.
pub fn concat_strs(list: &[&str]) -> (res: String)
    ensures
        res@ == concat(views(list@)),
{
    let mut res = String::new();
    let mut i: usize = 0;
    while i < list.len()
        invariant
            i <= list@.len(),
            res@ == concat(views(list@.take(i as int))),
        decreases list@.len() - i,
    {
        push_str(&mut res, list[i]);
        proof {
            assert(views(list@.take(i + 1)).drop_last() == views(list@.take(i as int)));
        }
        i += 1;
    }
    proof {
        assert(list@.take(list@.len() as int) == list@);
    }
    res
}

/// The strings of `list` joined with `sep` between neighbours.
pub fn join_strs(list: &[&str], sep: &str) -> (res: String)
    ensures
        res@ == join(views(list@), sep@),
{
    let mut res = String::new();
    let mut i: usize = 0;
    while i < list.len()
        invariant
            i <= list@.len(),
            res@ == join(views(list@.take(i as int)), sep@),
        decreases list@.len() - i,
    {
        proof {
            assert(views(list@.take(i + 1)).drop_last() == views(list@.take(i as int)));
        }
        if i != 0 {
            push_str(&mut res, sep);
        }
        push_str(&mut res, list[i]);
        i += 1;
    }
    proof {
        assert(list@.take(list@.len() as int) == list@);
    }
    res
}

/// Whether the two texts are equal.
pub fn str_eq(a: &str, b: &str) -> (eq: bool)
    ensures
        eq == (a@ == b@),
{
    let x = to_chars(a);
    let y = to_chars(b);
    if x.len() != y.len() {
        return false;
    }
    let mut i: usize = 0;
    while i < x.len()
        invariant
            x@ == a@,
            y@ == b@,
            x@.len() == y@.len(),
            i <= x@.len(),
            forall|k: int| 0 <= k < i ==> x@[k] == y@[k],
        decreases x@.len() - i,
    {
        if x[i] != y[i] {
            return false;
        }
        i += 1;
    }
    assert(a@ =~= b@);
    true
}

} // verus!
