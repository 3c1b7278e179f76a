//! Strings as sequences of characters: repetition, padding, joining.

use vstd::prelude::*;
use vstd::string::StringExecFns;

verus! {

/// `String::push` of the standard library appends one character.
pub assume_specification[ String::push ](s: &mut String, c: char)
    ensures
        final(s)@ == old(s)@.push(c),
;

/// `n` copies of `c`.
pub open spec fn repeated(c: char, n: nat) -> Seq<char> {
    Seq::new(n, |i: int| c)
}

/// `s` moved to the right of a field of `w` characters.
pub open spec fn right_aligned(s: Seq<char>, w: nat) -> Seq<char> {
    if s.len() < w {
        repeated(' ', (w - s.len()) as nat) + s
    } else {
        s
    }
}

/// `s` moved to the left of a field of `w` characters.
pub open spec fn left_aligned(s: Seq<char>, w: nat) -> Seq<char> {
    if s.len() < w {
        s + repeated(' ', (w - s.len()) as nat)
    } else {
        s
    }
}

/// `s` filled up with leading zeros to `w` characters.
pub open spec fn zero_filled(s: Seq<char>, w: nat) -> Seq<char> {
    if s.len() < w {
        repeated('0', (w - s.len()) as nat) + s
    } else {
        s
    }
}

/// The pieces one after the other, with `sep` between each two.
pub open spec fn joined(pieces: Seq<Seq<char>>, sep: Seq<char>) -> Seq<char>
    decreases pieces.len(),
{
    if pieces.len() == 0 {
        Seq::empty()
    } else if pieces.len() == 1 {
        pieces[0]
    } else {
        joined(pieces.drop_last(), sep) + sep + pieces.last()
    }
}

/// The characters of each string.
pub open spec fn texts(v: Seq<String>) -> Seq<Seq<char>> {
    Seq::new(v.len(), |i: int| v[i]@)
}

/// `s` with every `from` replaced by `to`.
pub open spec fn replaced(s: Seq<char>, from: char, to: char) -> Seq<char> {
    Seq::new(
        s.len(),
        |i: int|
            if s[i] == from {
                to
            } else {
                s[i]
            },
    )
}

/// `n` copies of `c`.
pub fn repeat(c: char, n: usize) -> (r: String)
    ensures
        r@ == repeated(c, n as nat),
{
    let mut r = String::new();
    let mut i: usize = 0;
    while i < n
        invariant
            i <= n,
            r@ =~= repeated(c, i as nat),
        decreases n - i,
    {
        r.push(c);
        i = i + 1;
    }
    r
}

/// `s` moved to the right of a field of `w` characters.
pub fn align_right(s: &str, w: usize) -> (r: String)
    ensures
        r@ == right_aligned(s@, w as nat),
{
    fill_left(s, ' ', w)
}

/// `s` filled up with leading zeros to `w` characters.
pub fn fill_zeros(s: &str, w: usize) -> (r: String)
    ensures
        r@ == zero_filled(s@, w as nat),
{
    fill_left(s, '0', w)
}

fn fill_left(s: &str, c: char, w: usize) -> (r: String)
    ensures
        r@ == (if s@.len() < w {
            repeated(c, (w - s@.len()) as nat) + s@
        } else {
            s@
        }),
{
    let n: usize = length(s);
    if n < w {
        let mut r: String = repeat(c, w - n);
        r.append(s);
        r
    } else {
        s.to_owned()
    }
}

/// `s` moved to the left of a field of `w` characters.
pub fn align_left(s: &str, w: usize) -> (r: String)
    ensures
        r@ == left_aligned(s@, w as nat),
{
    let n: usize = length(s);
    let mut r: String = s.to_owned();
    if n < w {
        let fill: String = repeat(' ', w - n);
        r.append(fill.as_str());
    }
    r
}

/// The number of characters.
fn length(s: &str) -> (n: usize)
    ensures
        n == s@.len(),
{
    vstd::string::StrSliceExecFns::unicode_len(s)
}

/// `a` and then `b`.
pub fn cat(a: &str, b: &str) -> (r: String)
    ensures
        r@ == a@ + b@,
{
    let mut r: String = a.to_owned();
    r.append(b);
    r
}

/// Puts `more` behind `lines`.
pub fn extend(lines: &mut Vec<String>, more: Vec<String>)
    ensures
        texts(final(lines)@) == texts(old(lines)@) + texts(more@),
{
    let ghost before = lines@;
    let mut rest: Vec<String> = more;
    lines.append(&mut rest);
    assert(texts(lines@) =~= texts(before) + texts(more@));
}

/// The pieces one after the other, with `sep` between each two.
pub fn join(pieces: &Vec<String>, sep: &str) -> (r: String)
    ensures
        r@ == joined(texts(pieces@), sep@),
{
    let mut r = String::new();
    let mut i: usize = 0;
    let ghost all = texts(pieces@);
    while i < pieces.len()
        invariant
            i <= pieces.len(),
            all == texts(pieces@),
            r@ == joined(all.take(i as int), sep@),
        decreases pieces.len() - i,
    {
        if i > 0 {
            r.append(sep);
        }
        r.append(pieces[i].as_str());
        proof {
            let next = all.take(i + 1);
            assert(next.drop_last() =~= all.take(i as int));
            assert(next.last() == pieces[i as int]@);
            if i == 0 {
                assert(r@ =~= next[0]);
            }
        }
        i = i + 1;
    }
    assert(all.take(pieces.len() as int) =~= all);
    r
}

/// `s` with every `from` replaced by `to`.
pub fn replace(s: &str, from: char, to: char) -> (r: String)
    ensures
        r@ == replaced(s@, from, to),
{
    let mut r = String::new();
    let n: usize = length(s);
    let mut i: usize = 0;
    while i < n
        invariant
            i <= n,
            n == s@.len(),
            r@ =~= replaced(s@.take(i as int), from, to),
        decreases n - i,
    {
        let c: char = vstd::string::StrSliceExecFns::get_char(s, i);
        if c == from {
            r.push(to);
        } else {
            r.push(c);
        }
        i = i + 1;
    }
    assert(s@.take(n as int) =~= s@);
    r
}

/// Lines of which the last is empty make a text that ends with the separator.
pub proof fn law_ends_with_separator(pieces: Seq<Seq<char>>, sep: Seq<char>)
    requires
        pieces.len() >= 2,
        pieces.last().len() == 0,
    ensures
        joined(pieces, sep) == joined(pieces.drop_last(), sep) + sep,
{
    assert(joined(pieces, sep) =~= joined(pieces.drop_last(), sep) + sep);
}

/// Nothing of `from` is left where it was replaced by another character, which stands wherever it
/// stood, and every other character is the same and where it was.
pub proof fn law_replaced(s: Seq<char>, from: char, to: char)
    requires
        from != to,
    ensures
        !replaced(s, from, to).contains(from),
        replaced(s, from, to).len() == s.len(),
        forall|i: int|
            #![trigger replaced(s, from, to)[i]]
            0 <= i < s.len() ==> {
                &&& s[i] == from ==> replaced(s, from, to)[i] == to
                &&& s[i] != from ==> replaced(s, from, to)[i] == s[i]
            },
{
}

/// The texts of strings are their characters, in the same order.
pub proof fn law_texts(v: Seq<String>)
    ensures
        texts(v).len() == v.len(),
        forall|i: int| 0 <= i < v.len() ==> #[trigger] texts(v)[i] == v[i]@,
{
}

/// A text stands at one end of its columns, with spaces, or zeros, up to the other; one that is wider
/// than its columns is left as it is.
pub proof fn law_columns(s: Seq<char>, w: nat)
    ensures
        s.len() >= w ==> right_aligned(s, w) == s && left_aligned(s, w) == s && zero_filled(s, w)
            == s,
        s.len() < w ==> {
            &&& right_aligned(s, w).len() == w
            &&& left_aligned(s, w).len() == w
            &&& zero_filled(s, w).len() == w
            &&& right_aligned(s, w).skip(w - s.len()) == s
            &&& left_aligned(s, w).take(s.len() as int) == s
            &&& zero_filled(s, w).skip(w - s.len()) == s
            &&& forall|i: int|
                0 <= i < w - s.len() ==> #[trigger] right_aligned(s, w)[i] == ' '
            &&& forall|i: int| s.len() <= i < w ==> #[trigger] left_aligned(s, w)[i] == ' '
            &&& forall|i: int| 0 <= i < w - s.len() ==> #[trigger] zero_filled(s, w)[i] == '0'
        },
{
    if s.len() < w {
        assert(right_aligned(s, w).skip(w - s.len()) =~= s);
        assert(left_aligned(s, w).take(s.len() as int) =~= s);
        assert(zero_filled(s, w).skip(w - s.len()) =~= s);
    }
}

} // verus!
