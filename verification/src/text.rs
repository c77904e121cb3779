//! Character-level text helpers: splitting on a separator, decimal numerals, and
//! moving between `&str`/`String` and character vectors.

use vstd::prelude::*;

verus! {

broadcast use vstd::string::axiom_spec_iter;

/// `String::push` appends one character, as the standard library documents.
pub assume_specification[ String::push ](s: &mut String, ch: char)
    ensures
        final(s)@ == old(s)@.push(ch),
;

/// The pieces of `s` between occurrences of `d` (as `str::split` yields them): one more
/// piece than there are separators, empty pieces included.
pub open spec fn split_on(s: Seq<char>, d: char) -> Seq<Seq<char>>
    decreases s.len(),
{
    if s.len() == 0 {
        seq![Seq::<char>::empty()]
    } else {
        let init = split_on(s.drop_last(), d);
        if s.last() == d {
            init.push(Seq::<char>::empty())
        } else {
            init.update(init.len() - 1, init.last().push(s.last()))
        }
    }
}

/// `c` has the Unicode `White_Space` property (what `char::is_whitespace` and
/// `str::trim` go by).
pub open spec fn is_white_space(c: char) -> bool {
    ||| '\t' <= c <= '\r'
    ||| c == ' '
    ||| c == '\u{85}'
    ||| c == '\u{a0}'
    ||| c == '\u{1680}'
    ||| '\u{2000}' <= c <= '\u{200a}'
    ||| c == '\u{2028}'
    ||| c == '\u{2029}'
    ||| c == '\u{202f}'
    ||| c == '\u{205f}'
    ||| c == '\u{3000}'
}

/// Text that trims to nothing.
pub open spec fn is_blank(s: Seq<char>) -> bool {
    forall|i: int| 0 <= i < s.len() ==> is_white_space(#[trigger] s[i])
}

/// `c` has the Unicode `White_Space` property.
pub fn white_space(c: char) -> (r: bool)
    ensures
        r == is_white_space(c),
{
    ('\t' <= c && c <= '\r') || c == ' ' || c == '\u{85}' || c == '\u{a0}' || c == '\u{1680}' || (
    '\u{2000}' <= c && c <= '\u{200a}') || c == '\u{2028}' || c == '\u{2029}' || c == '\u{202f}'
        || c == '\u{205f}' || c == '\u{3000}'
}

/// An ASCII decimal digit.
pub open spec fn is_digit(c: char) -> bool {
    '0' <= c && c <= '9'
}

/// Every character is an ASCII decimal digit.
pub open spec fn all_digits(ds: Seq<char>) -> bool {
    forall|i: int| 0 <= i < ds.len() ==> is_digit(#[trigger] ds[i])
}

/// The value of a run of decimal digits (most significant first).
pub open spec fn digits_value(ds: Seq<char>) -> nat
    decreases ds.len(),
{
    if ds.len() == 0 {
        0
    } else {
        digits_value(ds.drop_last()) * 10 + ((ds.last() as int - '0' as int) as nat)
    }
}

/// The standard library's reading of an unsigned integer no larger than `max`: an
/// optional `+`, then at least one decimal digit, the value not above `max`.
pub open spec fn parse_unsigned(t: Seq<char>, max: nat) -> Option<nat> {
    let ds = if t.len() > 0 && t[0] == '+' {
        t.drop_first()
    } else {
        t
    };
    if ds.len() > 0 && all_digits(ds) && digits_value(ds) <= max {
        Some(digits_value(ds))
    } else {
        None
    }
}

/// The character of a decimal digit.
pub open spec fn digit_char(d: nat) -> char {
    (d + 48) as char
}

/// The shortest decimal numeral of `v`.
pub open spec fn decimal(v: nat) -> Seq<char>
    decreases v,
{
    if v < 10 {
        seq![digit_char(v)]
    } else {
        decimal(v / 10).push(digit_char(v % 10))
    }
}

/// A digit character is a digit and is worth its digit.
pub proof fn lemma_digit_char(d: nat)
    requires
        d < 10,
    ensures
        is_digit(digit_char(d)),
        digit_char(d) as int - '0' as int == d,
{
    assert(digit_char(d) as int == d + 48);
}

/// A decimal numeral is a non-empty run of digits with the value it names.
pub proof fn lemma_decimal_digits(v: nat)
    ensures
        decimal(v).len() >= 1,
        all_digits(decimal(v)),
        digits_value(decimal(v)) == v,
        decimal(v)[0] != '+',
        decimal(v)[0] != '-',
    decreases v,
{
    if v >= 10 {
        lemma_decimal_digits(v / 10);
        let s = decimal(v);
        assert(s.drop_last() =~= decimal(v / 10));
        assert(s[0] == decimal(v / 10)[0]);
        lemma_digit_char(v % 10);
        assert(v == (v / 10) * 10 + v % 10);
        assert(s.last() == digit_char(v % 10));
        assert(digits_value(s) == digits_value(decimal(v / 10)) * 10 + (v % 10));
    } else {
        lemma_digit_char(v);
        let s = decimal(v);
        assert(s.drop_last() =~= Seq::<char>::empty());
        assert(digits_value(s) == digits_value(s.drop_last()) * 10 + ((s.last() as int
            - '0' as int) as nat));
    }
}

/// Parsing a decimal numeral gives its value back.
pub proof fn lemma_parse_decimal(v: nat, max: nat)
    requires
        v <= max,
    ensures
        parse_unsigned(decimal(v), max) == Some(v),
{
    lemma_decimal_digits(v);
}

/// A prefix of a run of digits is worth no more than the whole run.
proof fn lemma_digits_prefix_le(ds: Seq<char>, k: int)
    requires
        0 <= k <= ds.len(),
        all_digits(ds),
    ensures
        digits_value(ds.take(k)) <= digits_value(ds),
    decreases ds.len() - k,
{
    if k < ds.len() {
        lemma_digits_prefix_le(ds, k + 1);
        assert(ds.take(k + 1).drop_last() =~= ds.take(k));
    } else {
        assert(ds.take(k) =~= ds);
    }
}

/// The characters of `s`, in order.
pub fn chars_of(s: &str) -> (r: Vec<char>)
    ensures
        r@ == s@,
{
    let mut v: Vec<char> = Vec::new();
    for c in it: s.chars()
        invariant
            v@ == it.seq().take(it.index() as int),
    {
        v.push(c);
    }
    v
}

/// A `String` holding `cs[lo..hi]`.
pub fn string_of(cs: &Vec<char>, lo: usize, hi: usize) -> (r: String)
    requires
        lo <= hi <= cs@.len(),
    ensures
        r@ == cs@.subrange(lo as int, hi as int),
{
    let mut out = String::new();
    let mut q = lo;
    while q < hi
        invariant
            lo <= q <= hi,
            hi <= cs@.len(),
            out@ == cs@.subrange(lo as int, q as int),
        decreases hi - q,
    {
        out.push(cs[q]);
        proof {
            assert(cs@.subrange(lo as int, q + 1) =~= cs@.subrange(lo as int, q as int).push(
                cs@[q as int],
            ));
        }
        q = q + 1;
    }
    out
}

/// Append every character of `cs` to `out`.
pub fn push_chars(out: &mut String, cs: &Vec<char>)
    ensures
        final(out)@ == old(out)@ + cs@,
{
    let mut q: usize = 0;
    while q < cs.len()
        invariant
            q <= cs@.len(),
            out@ == old(out)@ + cs@.take(q as int),
        decreases cs@.len() - q,
    {
        out.push(cs[q]);
        proof {
            assert(cs@.take(q + 1) =~= cs@.take(q as int).push(cs@[q as int]));
        }
        q = q + 1;
    }
    proof {
        assert(cs@.take(cs@.len() as int) =~= cs@);
    }
}

/// Append every character of `s` to `out`.
pub fn push_str(out: &mut String, s: &str)
    ensures
        final(out)@ == old(out)@ + s@,
{
    let cs = chars_of(s);
    push_chars(out, &cs);
}

/// The shortest decimal numeral of `v`.
pub fn decimal_chars(v: u64) -> (r: Vec<char>)
    ensures
        r@ == decimal(v as nat),
{
    let mut rev_digits: Vec<char> = Vec::new();
    let mut x = v;
    loop
        invariant_except_break
            decimal(v as nat) == decimal(x as nat) + rev_digits@.reverse(),
        ensures
            decimal(v as nat) == rev_digits@.reverse(),
        decreases x,
    {
        let d = (x % 10) as u8;
        let c = (d + 48) as char;
        proof {
            assert(c == digit_char((x % 10) as nat));
        }
        let ghost before = rev_digits@;
        rev_digits.push(c);
        proof {
            assert(rev_digits@.reverse() =~= seq![c] + before.reverse());
        }
        if x < 10 {
            proof {
                assert(x % 10 == x);
                assert(decimal(x as nat) =~= seq![c]);
                assert(decimal(v as nat) =~= rev_digits@.reverse());
            }
            break;
        }
        proof {
            assert(decimal(x as nat) == decimal((x / 10) as nat).push(digit_char((x % 10) as nat)));
            assert(decimal(x as nat) + before.reverse() =~= decimal((x / 10) as nat) + (seq![c]
                + before.reverse()));
        }
        x = x / 10;
    }
    let mut r: Vec<char> = Vec::new();
    let mut q = rev_digits.len();
    while q > 0
        invariant
            q <= rev_digits@.len(),
            r@ == rev_digits@.subrange(q as int, rev_digits@.len() as int).reverse(),
        decreases q,
    {
        r.push(rev_digits[q - 1]);
        proof {
            assert(rev_digits@.subrange(q - 1, rev_digits@.len() as int).reverse() =~= rev_digits@.subrange(
                q as int,
                rev_digits@.len() as int,
            ).reverse().push(rev_digits@[q - 1]));
        }
        q = q - 1;
    }
    proof {
        assert(rev_digits@.subrange(0, rev_digits@.len() as int) =~= rev_digits@);
    }
    r
}

/// Split `s` on every occurrence of `d`.
pub fn split_chars(s: &Vec<char>, d: char) -> (parts: Vec<Vec<char>>)
    ensures
        parts@.len() == split_on(s@, d).len(),
        forall|i: int| 0 <= i < parts@.len() ==> #[trigger] parts@[i]@ == split_on(s@, d)[i],
{
    let mut parts: Vec<Vec<char>> = Vec::new();
    let mut cur: Vec<char> = Vec::new();
    let mut q: usize = 0;
    while q < s.len()
        invariant
            q <= s@.len(),
            parts@.len() + 1 == split_on(s@.take(q as int), d).len(),
            forall|i: int| 0 <= i < parts@.len() ==> #[trigger] parts@[i]@ == split_on(s@.take(q as int), d)[i],
            cur@ == split_on(s@.take(q as int), d).last(),
        decreases s@.len() - q,
    {
        let c = s[q];
        proof {
            assert(s@.take(q + 1).drop_last() =~= s@.take(q as int));
        }
        if c == d {
            parts.push(cur);
            cur = Vec::new();
        } else {
            cur.push(c);
        }
        q = q + 1;
    }
    parts.push(cur);
    proof {
        assert(s@.take(s@.len() as int) =~= s@);
    }
    parts
}

/// Read `cs[lo..hi]` as an unsigned integer no larger than `max`, as the standard
/// library's `str::parse` does.
pub fn parse_unsigned_chars(cs: &Vec<char>, lo: usize, hi: usize, max: u64) -> (r: Option<u64>)
    requires
        lo <= hi <= cs@.len(),
        max <= u32::MAX,
    ensures
        r matches Some(v) ==> parse_unsigned(cs@.subrange(lo as int, hi as int), max as nat) == Some(
            v as nat,
        ),
        r is None ==> parse_unsigned(cs@.subrange(lo as int, hi as int), max as nat) is None,
{
    let ghost t = cs@.subrange(lo as int, hi as int);
    let start = if lo < hi && cs[lo] == '+' {
        lo + 1
    } else {
        lo
    };
    let ghost ds = cs@.subrange(start as int, hi as int);
    proof {
        assert(t.len() > 0 ==> t[0] == cs@[lo as int]);
        if lo < hi && cs@[lo as int] == '+' {
            assert(ds =~= t.drop_first());
        } else {
            assert(ds =~= t);
        }
    }
    if start == hi {
        proof {
            assert(ds.len() == 0);
        }
        return None;
    }
    let mut value: u64 = 0;
    let mut q = start;
    while q < hi
        invariant
            start <= q <= hi,
            hi <= cs@.len(),
            max <= u32::MAX,
            ds == cs@.subrange(start as int, hi as int),
            t == cs@.subrange(lo as int, hi as int),
            ds == (if t.len() > 0 && t[0] == '+' {
                t.drop_first()
            } else {
                t
            }),
            all_digits(ds.take(q - start)),
            value == digits_value(ds.take(q - start)),
            value <= max,
        decreases hi - q,
    {
        let c = cs[q];
        proof {
            assert(ds.take(q - start + 1).drop_last() =~= ds.take(q - start));
            assert(ds[q - start] == c);
        }
        if c < '0' || c > '9' {
            proof {
                assert(!is_digit(ds[q - start]));
                assert(!all_digits(ds));
            }
            return None;
        }
        let next = value * 10 + (c as u64 - 48);
        if next > max {
            proof {
                let pre = ds.take(q - start + 1);
                assert(pre.drop_last() =~= ds.take(q - start));
                assert(pre.last() == c);
                assert(digits_value(pre) == next);
                if all_digits(ds) {
                    lemma_digits_prefix_le(ds, q - start + 1);
                }
            }
            return None;
        }
        value = next;
        q = q + 1;
    }
    proof {
        assert(ds.take(hi - start) =~= ds);
    }
    Some(value)
}

} // verus!
