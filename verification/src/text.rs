//! Character-level text handling for the mesh file format: lines, Unicode
//! whitespace, trimming, splitting into words and decimal `usize` literals.
//!
//! Each operation is specified over `Seq<char>` the way the standard library
//! documents its `str` counterpart (`lines`, `trim`, `split_whitespace`,
//! `parse::<usize>`), and implemented by a verified scan.

use vstd::prelude::*;

verus! {

/// The Unicode `White_Space` property, which `char::is_whitespace` tests.
pub open spec fn is_ws(c: char) -> bool {
    let u = c as u32;
    ||| 0x9 <= u <= 0xD
    ||| u == 0x20
    ||| u == 0x85
    ||| u == 0xA0
    ||| u == 0x1680
    ||| 0x2000 <= u <= 0x200A
    ||| u == 0x2028
    ||| u == 0x2029
    ||| u == 0x202F
    ||| u == 0x205F
    ||| u == 0x3000
}

/// Tests [`is_ws`].
pub fn is_whitespace(c: char) -> (r: bool)
    ensures
        r == is_ws(c),
{
    let u = c as u32;
    (0x9 <= u && u <= 0xD) || u == 0x20 || u == 0x85 || u == 0xA0 || u == 0x1680 || (0x2000 <= u
        && u <= 0x200A) || u == 0x2028 || u == 0x2029 || u == 0x202F || u == 0x205F || u == 0x3000
}

/// Scanning state after reading `s` for line splitting: the finished lines and
/// the line under construction.
pub open spec fn lines_state(s: Seq<char>) -> (Seq<Seq<char>>, Seq<char>)
    decreases s.len(),
{
    if s.len() == 0 {
        (Seq::empty(), Seq::empty())
    } else {
        let (done, cur) = lines_state(s.drop_last());
        if s.last() == '\n' {
            (done.push(cur), Seq::empty())
        } else {
            (done, cur.push(s.last()))
        }
    }
}

/// The lines of `s`: the pieces between `'\n'` characters, where a final
/// `'\n'` ends the last line rather than starting an empty one (so empty text
/// has no lines). A `'\r'` before `'\n'` stays in its line; every use of a line
/// trims it, which removes such a `'\r'` exactly as `str::lines` would.
pub open spec fn text_lines(s: Seq<char>) -> Seq<Seq<char>> {
    let (done, cur) = lines_state(s);
    if cur.len() > 0 {
        done.push(cur)
    } else {
        done
    }
}

/// `s` without its leading whitespace.
pub open spec fn trim_start(s: Seq<char>) -> Seq<char>
    decreases s.len(),
{
    if s.len() > 0 && is_ws(s[0]) {
        trim_start(s.drop_first())
    } else {
        s
    }
}

/// `s` without its trailing whitespace.
pub open spec fn trim_end(s: Seq<char>) -> Seq<char>
    decreases s.len(),
{
    if s.len() > 0 && is_ws(s.last()) {
        trim_end(s.drop_last())
    } else {
        s
    }
}

/// `s` without leading and trailing whitespace (`str::trim`).
pub open spec fn trim(s: Seq<char>) -> Seq<char> {
    trim_end(trim_start(s))
}

/// Scanning state after reading `s` for word splitting: the finished words and
/// the word under construction.
pub open spec fn words_state(s: Seq<char>) -> (Seq<Seq<char>>, Seq<char>)
    decreases s.len(),
{
    if s.len() == 0 {
        (Seq::empty(), Seq::empty())
    } else {
        let (done, cur) = words_state(s.drop_last());
        if is_ws(s.last()) {
            if cur.len() > 0 {
                (done.push(cur), Seq::empty())
            } else {
                (done, cur)
            }
        } else {
            (done, cur.push(s.last()))
        }
    }
}

/// The maximal runs of non-whitespace characters of `s`, in order
/// (`str::split_whitespace`).
pub open spec fn words(s: Seq<char>) -> Seq<Seq<char>> {
    let (done, cur) = words_state(s);
    if cur.len() > 0 {
        done.push(cur)
    } else {
        done
    }
}

/// An ASCII decimal digit.
pub open spec fn is_digit(c: char) -> bool {
    48 <= c as u32 <= 57
}

/// Value of a string of decimal digits.
pub open spec fn digits_value(s: Seq<char>) -> nat
    decreases s.len(),
{
    if s.len() == 0 {
        0
    } else {
        digits_value(s.drop_last()) * 10 + ((s.last() as u32) - 48) as nat
    }
}

/// The digits part of an unsigned literal: one leading `'+'` is dropped.
pub open spec fn unsigned_digits(s: Seq<char>) -> Seq<char> {
    if s.len() > 0 && s[0] == '+' {
        s.drop_first()
    } else {
        s
    }
}

/// `s` parsed as a `usize` the way `str::parse::<usize>` does: an optional
/// `'+'`, then at least one ASCII digit and nothing else, with a value that fits.
pub open spec fn parse_usize(s: Seq<char>) -> Option<usize> {
    let d = unsigned_digits(s);
    if d.len() > 0 && (forall|k: int| 0 <= k < d.len() ==> is_digit(#[trigger] d[k]))
        && digits_value(d) <= usize::MAX {
        Some(digits_value(d) as usize)
    } else {
        None
    }
}

/// The characters of `s`, in order.
pub fn chars_of(s: &str) -> (r: Vec<char>)
    ensures
        r@ == s@,
{
    let mut r: Vec<char> = Vec::new();
    for c in it: s.chars()
        invariant
            r@ == it.seq().take(it.index()),
    {
        r.push(c);
    }
    r
}

/// Appends `c` to `s` by calling `String::push`. Trusted: the contract claims
/// what the standard library documents, that the string's characters become
/// the old ones followed by `c`.
#[verifier::external_body]
fn push_char(s: &mut String, c: char)
    ensures
        final(s)@ == old(s)@.push(c),
{
    s.push(c);
}

/// A `String` holding the characters of `cs`.
pub fn string_of(cs: &[char]) -> (r: String)
    ensures
        r@ == cs@,
{
    let mut r = String::new();
    let mut k: usize = 0;
    while k < cs.len()
        invariant
            k <= cs@.len(),
            r@ == cs@.take(k as int),
        decreases cs@.len() - k,
    {
        push_char(&mut r, cs[k]);
        proof {
            assert(cs@.take(k + 1) =~= cs@.take(k as int).push(cs@[k as int]));
        }
        k = k + 1;
    }
    proof {
        assert(cs@.take(cs@.len() as int) =~= cs@);
    }
    r
}

/// Views of a list of character vectors.
pub open spec fn views(v: Seq<Vec<char>>) -> Seq<Seq<char>> {
    v.map_values(|x: Vec<char>| x@)
}

/// The lines of `cs` (see [`text_lines`]).
pub fn lines(cs: &[char]) -> (r: Vec<Vec<char>>)
    ensures
        views(r@) == text_lines(cs@),
{
    let mut done: Vec<Vec<char>> = Vec::new();
    let mut cur: Vec<char> = Vec::new();
    let mut k: usize = 0;
    while k < cs.len()
        invariant
            k <= cs@.len(),
            lines_state(cs@.take(k as int)) == (views(done@), cur@),
        decreases cs@.len() - k,
    {
        proof {
            assert(cs@.take(k + 1).drop_last() =~= cs@.take(k as int));
        }
        if cs[k] == '\n' {
            let ghost d0 = done@;
            let line = cur;
            done.push(line);
            cur = Vec::new();
            proof {
                assert(views(done@) =~= views(d0).push(line@));
            }
        } else {
            cur.push(cs[k]);
        }
        k = k + 1;
    }
    proof {
        assert(cs@.take(cs@.len() as int) =~= cs@);
    }
    let ghost d0 = done@;
    let ghost c0 = cur@;
    if cur.len() > 0 {
        done.push(cur);
        proof {
            assert(views(done@) =~= views(d0).push(c0));
        }
    }
    done
}

/// `cs` without leading and trailing whitespace (see [`trim`]).
pub fn trim_chars(cs: &[char]) -> (r: Vec<char>)
    ensures
        r@ == trim(cs@),
{
    let n = cs.len();
    let mut a: usize = 0;
    proof {
        assert(cs@.subrange(0, n as int) =~= cs@);
    }
    while a < n && is_whitespace(cs[a])
        invariant
            n == cs@.len(),
            a <= n,
            trim_start(cs@) == trim_start(cs@.subrange(a as int, n as int)),
        decreases n - a,
    {
        proof {
            assert(cs@.subrange(a as int, n as int).drop_first() =~= cs@.subrange(a + 1, n as int));
        }
        a = a + 1;
    }
    let mut b: usize = n;
    while b > a && is_whitespace(cs[b - 1])
        invariant
            n == cs@.len(),
            a <= b <= n,
            trim_end(cs@.subrange(a as int, n as int)) == trim_end(cs@.subrange(a as int, b as int)),
        decreases b - a,
    {
        proof {
            assert(cs@.subrange(a as int, b as int).drop_last() =~= cs@.subrange(a as int, b - 1));
        }
        b = b - 1;
    }
    let mut r: Vec<char> = Vec::new();
    let mut k: usize = a;
    while k < b
        invariant
            n == cs@.len(),
            a <= k <= b <= n,
            r@ == cs@.subrange(a as int, k as int),
        decreases b - k,
    {
        r.push(cs[k]);
        proof {
            assert(r@ =~= cs@.subrange(a as int, k + 1));
        }
        k = k + 1;
    }
    r
}

/// The words of `cs` (see [`words`]).
pub fn split_words(cs: &[char]) -> (r: Vec<Vec<char>>)
    ensures
        views(r@) == words(cs@),
{
    let mut done: Vec<Vec<char>> = Vec::new();
    let mut cur: Vec<char> = Vec::new();
    let mut k: usize = 0;
    while k < cs.len()
        invariant
            k <= cs@.len(),
            words_state(cs@.take(k as int)) == (views(done@), cur@),
        decreases cs@.len() - k,
    {
        proof {
            assert(cs@.take(k + 1).drop_last() =~= cs@.take(k as int));
        }
        if is_whitespace(cs[k]) {
            if cur.len() > 0 {
                let ghost d0 = done@;
                let word = cur;
                done.push(word);
                cur = Vec::new();
                proof {
                    assert(views(done@) =~= views(d0).push(word@));
                }
            }
        } else {
            cur.push(cs[k]);
        }
        k = k + 1;
    }
    proof {
        assert(cs@.take(cs@.len() as int) =~= cs@);
    }
    let ghost d0 = done@;
    let ghost c0 = cur@;
    if cur.len() > 0 {
        done.push(cur);
        proof {
            assert(views(done@) =~= views(d0).push(c0));
        }
    }
    done
}

/// A decimal digit's value grows the value of the digits before it.
proof fn lemma_digits_value_grows(s: Seq<char>)
    requires
        s.len() > 0,
        is_digit(s.last()),
    ensures
        digits_value(s) >= digits_value(s.drop_last()),
{
}

/// `cs` parsed as a `usize` (see [`parse_usize`]).
pub fn parse_usize_chars(cs: &[char]) -> (r: Option<usize>)
    ensures
        r == parse_usize(cs@),
{
    let n = cs.len();
    let start: usize = if n > 0 && cs[0] == '+' { 1 } else { 0 };
    let ghost d = unsigned_digits(cs@);
    proof {
        assert(d =~= cs@.subrange(start as int, n as int));
    }
    if start == n {
        assert(d.len() == 0);
        return None;
    }
    let mut v: usize = 0;
    let mut big = false;
    let mut k: usize = start;
    while k < n
        invariant
            n == cs@.len(),
            start <= k <= n,
            d == cs@.subrange(start as int, n as int),
            d == unsigned_digits(cs@),
            forall|m: int| start <= m < k ==> is_digit(#[trigger] cs@[m]),
            !big ==> v == digits_value(cs@.subrange(start as int, k as int)),
            big ==> digits_value(cs@.subrange(start as int, k as int)) > usize::MAX,
        decreases n - k,
    {
        let c = cs[k];
        let u = c as u32;
        if u < 48 || u > 57 {
            proof {
                assert(d[k - start] == cs@[k as int]);
                assert(!is_digit(d[k - start]));
                assert(!(forall|m: int| 0 <= m < d.len() ==> is_digit(#[trigger] d[m])));
                assert(parse_usize(cs@) == None::<usize>);
            }
            return None;
        }
        let digit = (u - 48) as usize;
        proof {
            assert(cs@.subrange(start as int, k + 1).drop_last() =~= cs@.subrange(start as int, k as int));
            assert(cs@.subrange(start as int, k + 1).last() == c);
            lemma_digits_value_grows(cs@.subrange(start as int, k + 1));
        }
        if !big {
            match v.checked_mul(10) {
                Some(t) => match t.checked_add(digit) {
                    Some(w) => {
                        v = w;
                    },
                    None => {
                        big = true;
                    },
                },
                None => {
                    big = true;
                },
            }
        }
        k = k + 1;
    }
    proof {
        assert(cs@.subrange(start as int, n as int) == d);
        assert forall|m: int| 0 <= m < d.len() implies is_digit(#[trigger] d[m]) by {
            assert(d[m] == cs@[start + m]);
        }
    }
    if big {
        None
    } else {
        Some(v)
    }
}

} // verus!
