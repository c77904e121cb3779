//! The `crossings` column of `block_layouts.csv`: a `;`-separated list of points where
//! an island's two faces can be crossed.
//!
//! Each item is `along` or `along@kind`, where `kind` is `major`/`minor` (anything but
//! `major`, in any ASCII case, is minor; a bare number is minor). Items are trimmed and
//! blank items are skipped. This module splits the list into its items; reading each
//! `along` text as a real number happens where the float geometry lives.

use vstd::prelude::*;

use crate::layout::{find_char, first_index};
use crate::text::{chars_of, is_white_space, split_chars, split_on, string_of, white_space};

verus! {

/// `s` without its leading white space.
pub open spec fn trim_start(s: Seq<char>) -> Seq<char>
    decreases s.len(),
{
    if s.len() > 0 && is_white_space(s[0]) {
        trim_start(s.drop_first())
    } else {
        s
    }
}

/// `s` without its trailing white space.
pub open spec fn trim_end(s: Seq<char>) -> Seq<char>
    decreases s.len(),
{
    if s.len() > 0 && is_white_space(s.last()) {
        trim_end(s.drop_last())
    } else {
        s
    }
}

/// `s` without white space at either end (what `str::trim` gives).
pub open spec fn trimmed(s: Seq<char>) -> Seq<char> {
    trim_end(trim_start(s))
}

/// The text before and after the first `@` of `p`; all of `p` and nothing when it has
/// no `@`.
pub open spec fn split_at_sign(p: Seq<char>) -> (Seq<char>, Seq<char>) {
    match first_index(p, '@') {
        Some(i) => (p.take(i), p.skip(i + 1)),
        None => (p, Seq::empty()),
    }
}

/// `k` is the word `major` in any ASCII letter case.
pub open spec fn names_major(k: Seq<char>) -> bool {
    &&& k.len() == 5
    &&& (k[0] == 'm' || k[0] == 'M')
    &&& (k[1] == 'a' || k[1] == 'A')
    &&& (k[2] == 'j' || k[2] == 'J')
    &&& (k[3] == 'o' || k[3] == 'O')
    &&& (k[4] == 'r' || k[4] == 'R')
}

/// The items of a split list: each piece trimmed, blank pieces dropped, order kept.
pub open spec fn list_items(parts: Seq<Seq<char>>) -> Seq<Seq<char>>
    decreases parts.len(),
{
    if parts.len() == 0 {
        Seq::empty()
    } else {
        let init = list_items(parts.drop_last());
        let t = trimmed(parts.last());
        if t.len() == 0 {
            init
        } else {
            init.push(t)
        }
    }
}

/// One item of a crossings list, split but not yet read as a number.
#[derive(Debug, Clone)]
pub struct CrossingText {
    /// The trimmed text of the along-axis position.
    pub along: String,
    /// Whether the item's kind is `major`.
    pub major: bool,
}

/// `c` is what the item `item` says.
pub open spec fn crossing_of(item: Seq<char>, c: CrossingText) -> bool {
    &&& c.along@ == trimmed(split_at_sign(item).0)
    &&& c.major == names_major(trimmed(split_at_sign(item).1))
}

proof fn lemma_trim_start(s: Seq<char>, a: int)
    requires
        0 <= a <= s.len(),
        forall|i: int| 0 <= i < a ==> is_white_space(#[trigger] s[i]),
        a == s.len() || !is_white_space(s[a]),
    ensures
        trim_start(s) == s.skip(a),
    decreases a,
{
    if a > 0 {
        assert(s.drop_first().skip(a - 1) =~= s.skip(a));
        lemma_trim_start(s.drop_first(), a - 1);
    } else {
        assert(s.skip(0) =~= s);
    }
}

proof fn lemma_trim_end(s: Seq<char>, b: int)
    requires
        0 <= b <= s.len(),
        forall|i: int| b <= i < s.len() ==> is_white_space(#[trigger] s[i]),
        b == 0 || !is_white_space(s[b - 1]),
    ensures
        trim_end(s) == s.take(b),
    decreases s.len() - b,
{
    if b < s.len() {
        assert(s.drop_last().take(b) =~= s.take(b));
        lemma_trim_end(s.drop_last(), b);
    } else {
        assert(s.take(b) =~= s);
    }
}

/// Bounds of `cs[lo..hi]` with white space trimmed from both ends.
fn trim_bounds(cs: &Vec<char>, lo: usize, hi: usize) -> (r: (usize, usize))
    requires
        lo <= hi <= cs@.len(),
    ensures
        lo <= r.0 <= r.1 <= hi,
        cs@.subrange(r.0 as int, r.1 as int) == trimmed(cs@.subrange(lo as int, hi as int)),
{
    let mut a = lo;
    while a < hi && white_space(cs[a])
        invariant
            lo <= a <= hi,
            hi <= cs@.len(),
            forall|i: int| lo <= i < a ==> is_white_space(#[trigger] cs@[i]),
        decreases hi - a,
    {
        a = a + 1;
    }
    let mut b = hi;
    while b > a && white_space(cs[b - 1])
        invariant
            a <= b <= hi,
            hi <= cs@.len(),
            forall|i: int| b <= i < hi ==> is_white_space(#[trigger] cs@[i]),
        decreases b - a,
    {
        b = b - 1;
    }
    proof {
        let s = cs@.subrange(lo as int, hi as int);
        assert forall|i: int| 0 <= i < a - lo implies is_white_space(#[trigger] s[i]) by {
            assert(s[i] == cs@[lo + i]);
        }
        lemma_trim_start(s, a - lo);
        let t = s.skip(a - lo);
        assert(t =~= cs@.subrange(a as int, hi as int));
        assert forall|i: int| b - a <= i < t.len() implies is_white_space(#[trigger] t[i]) by {
            assert(t[i] == cs@[a + i]);
        }
        lemma_trim_end(t, b - a);
        assert(t.take(b - a) =~= cs@.subrange(a as int, b as int));
    }
    (a, b)
}

/// A vector holding `cs[lo..hi]`.
fn copy_range(cs: &Vec<char>, lo: usize, hi: usize) -> (r: Vec<char>)
    requires
        lo <= hi <= cs@.len(),
    ensures
        r@ == cs@.subrange(lo as int, hi as int),
{
    let mut r: Vec<char> = Vec::new();
    let mut q = lo;
    while q < hi
        invariant
            lo <= q <= hi,
            hi <= cs@.len(),
            r@ == cs@.subrange(lo as int, q as int),
        decreases hi - q,
    {
        r.push(cs[q]);
        proof {
            assert(cs@.subrange(lo as int, q + 1) =~= cs@.subrange(lo as int, q as int).push(
                cs@[q as int],
            ));
        }
        q = q + 1;
    }
    r
}

/// Whether `cs[lo..hi]` is the word `major` in any ASCII letter case.
fn is_major(cs: &Vec<char>, lo: usize, hi: usize) -> (r: bool)
    requires
        lo <= hi <= cs@.len(),
    ensures
        r == names_major(cs@.subrange(lo as int, hi as int)),
{
    if hi - lo != 5 {
        return false;
    }
    let c0 = cs[lo];
    let c1 = cs[lo + 1];
    let c2 = cs[lo + 2];
    let c3 = cs[lo + 3];
    let c4 = cs[lo + 4];
    (c0 == 'm' || c0 == 'M') && (c1 == 'a' || c1 == 'A') && (c2 == 'j' || c2 == 'J') && (c3
        == 'o' || c3 == 'O') && (c4 == 'r' || c4 == 'R')
}

/// Split one non-blank, trimmed item into its along text and kind.
fn crossing_item(item: &Vec<char>) -> (c: CrossingText)
    ensures
        crossing_of(item@, c),
{
    let n = item.len();
    let (num_hi, kind_lo) = match find_char(item, '@') {
        Some(i) => (i, i + 1),
        None => (n, n),
    };
    proof {
        match first_index(item@, '@') {
            Some(i) => {
                assert(item@.subrange(0, i) =~= item@.take(i));
                assert(item@.subrange(i + 1, n as int) =~= item@.skip(i + 1));
            },
            None => {
                assert(item@.subrange(0, n as int) =~= item@);
                assert(item@.subrange(n as int, n as int) =~= Seq::<char>::empty());
            },
        }
    }
    let (na, nb) = trim_bounds(item, 0, num_hi);
    let (ka, kb) = trim_bounds(item, kind_lo, n);
    CrossingText { along: string_of(item, na, nb), major: is_major(item, ka, kb) }
}

/// Split a `;`-separated crossings list into its items, in order, each trimmed and
/// divided at its first `@` into the along text and the kind; blank items are skipped.
pub fn split_crossings(s: &str) -> (r: Vec<CrossingText>)
    ensures
        r@.len() == list_items(split_on(s@, ';')).len(),
        forall|i: int|
            0 <= i < r@.len() ==> crossing_of(
                list_items(split_on(s@, ';'))[i],
                #[trigger] r@[i],
            ),
{
    let chars = chars_of(s);
    let parts = split_chars(&chars, ';');
    let ghost ps = split_on(s@, ';');
    let mut out: Vec<CrossingText> = Vec::new();
    let mut q: usize = 0;
    while q < parts.len()
        invariant
            q <= parts@.len(),
            parts@.len() == ps.len(),
            forall|i: int| 0 <= i < parts@.len() ==> #[trigger] parts@[i]@ == ps[i],
            out@.len() == list_items(ps.take(q as int)).len(),
            forall|i: int|
                0 <= i < out@.len() ==> crossing_of(
                    list_items(ps.take(q as int))[i],
                    #[trigger] out@[i],
                ),
        decreases parts@.len() - q,
    {
        let part = &parts[q];
        let (a, b) = trim_bounds(part, 0, part.len());
        proof {
            assert(ps.take(q + 1).drop_last() =~= ps.take(q as int));
            assert(part@.subrange(0, part@.len() as int) =~= part@);
        }
        if a < b {
            let item = copy_range(part, a, b);
            let c = crossing_item(&item);
            out.push(c);
        }
        q = q + 1;
    }
    proof {
        assert(ps.take(ps.len() as int) =~= ps);
    }
    out
}

} // verus!
