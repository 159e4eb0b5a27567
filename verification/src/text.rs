//! Character-level helpers shared by the parser and the value tree:
//! ASCII case folding, lexicographic ordering of character sequences,
//! and decimal conversions.

use vstd::prelude::*;
use vstd::string::StrSliceExecFns;

verus! {

/// The ASCII whitespace characters that separate tokens.
pub open spec fn is_vdf_ws(c: char) -> bool {
    c == ' ' || c == '\t' || c == '\n' || c == '\r' || c == '\x0c'
}

/// ASCII-only lower-casing of one character.
pub open spec fn fold_char(c: char) -> char {
    if 'A' <= c && c <= 'Z' {
        ((c as u8) + 32) as char
    } else {
        c
    }
}

/// ASCII-only lower-casing of a character sequence.
pub open spec fn fold_chars(s: Seq<char>) -> Seq<char> {
    s.map_values(|c: char| fold_char(c))
}

/// Two keys match for lookup purposes when they agree up to ASCII case.
pub open spec fn ci_matches(a: Seq<char>, b: Seq<char>) -> bool {
    fold_chars(a) == fold_chars(b)
}

/// Lexicographic order on character sequences, by code point.
pub open spec fn lex_leq(a: Seq<char>, b: Seq<char>) -> bool
    decreases a.len(),
{
    if a.len() == 0 {
        true
    } else if b.len() == 0 {
        false
    } else if a[0] == b[0] {
        lex_leq(a.drop_first(), b.drop_first())
    } else {
        (a[0] as u32) < (b[0] as u32)
    }
}

/// Copies the characters of a string into a vector.
pub fn str_chars(s: &str) -> (r: Vec<char>)
    ensures
        r@ == s@,
{
    let n = s.unicode_len();
    let mut v: Vec<char> = Vec::new();
    let mut i: usize = 0;
    while i < n
        invariant
            n == s@.len(),
            i <= n,
            v@ == s@.subrange(0, i as int),
        decreases n - i,
    {
        v.push(s.get_char(i));
        i = i + 1;
        proof {
            assert(v@ =~= s@.subrange(0, i as int));
        }
    }
    proof {
        assert(s@.subrange(0, n as int) =~= s@);
    }
    v
}

/// Relies on `String`'s `FromIterator<char>` impl: collecting characters
/// yields the string made of exactly those characters in order.
#[verifier::external_body]
pub fn chars_to_string(v: &Vec<char>) -> (r: String)
    ensures
        r@ == v@,
{
    v.iter().collect()
}

/// ASCII-only lower-casing, executable form.
pub fn char_fold(c: char) -> (r: char)
    ensures
        r == fold_char(c),
{
    if 'A' <= c && c <= 'Z' {
        ((c as u8) + 32) as char
    } else {
        c
    }
}

/// Whether two strings agree up to ASCII case.
pub fn str_ci_eq(a: &str, b: &str) -> (r: bool)
    ensures
        r == ci_matches(a@, b@),
{
    let an = a.unicode_len();
    let bn = b.unicode_len();
    if an != bn {
        assert(fold_chars(a@).len() == a@.len() && fold_chars(b@).len() == b@.len());
        return false;
    }
    let mut i: usize = 0;
    while i < an
        invariant
            an == a@.len(),
            an == b@.len(),
            i <= an,
            forall|j: int| 0 <= j < i ==> fold_char(a@[j]) == fold_char(b@[j]),
        decreases an - i,
    {
        let ca = char_fold(a.get_char(i));
        let cb = char_fold(b.get_char(i));
        if ca != cb {
            assert(fold_chars(a@)[i as int] != fold_chars(b@)[i as int]);
            return false;
        }
        i = i + 1;
    }
    proof {
        assert(fold_chars(a@) =~= fold_chars(b@));
    }
    true
}

/// Equal prefixes do not affect the lexicographic comparison of the rest.
proof fn lemma_lex_skip(a: Seq<char>, b: Seq<char>, i: int)
    requires
        0 <= i <= a.len(),
        i <= b.len(),
        forall|j: int| 0 <= j < i ==> a[j] == b[j],
    ensures
        lex_leq(a, b) == lex_leq(a.skip(i), b.skip(i)),
    decreases i,
{
    if i == 0 {
        assert(a.skip(0) =~= a);
        assert(b.skip(0) =~= b);
    } else {
        assert(a.len() > 0 && b.len() > 0 && a[0] == b[0]);
        lemma_lex_skip(a.drop_first(), b.drop_first(), i - 1);
        assert(a.drop_first().skip(i - 1) =~= a.skip(i));
        assert(b.drop_first().skip(i - 1) =~= b.skip(i));
    }
}

/// Lexicographic comparison of two strings, executable form.
pub fn str_lex_leq(a: &str, b: &str) -> (r: bool)
    ensures
        r == lex_leq(a@, b@),
{
    let an = a.unicode_len();
    let bn = b.unicode_len();
    let mut i: usize = 0;
    while i < an && i < bn
        invariant
            an == a@.len(),
            bn == b@.len(),
            i <= an,
            i <= bn,
            forall|j: int| 0 <= j < i ==> a@[j] == b@[j],
        decreases an - i,
    {
        let ca = a.get_char(i);
        let cb = b.get_char(i);
        if ca != cb {
            proof {
                lemma_lex_skip(a@, b@, i as int);
                assert(a@.skip(i as int)[0] == a@[i as int]);
                assert(b@.skip(i as int)[0] == b@[i as int]);
            }
            return (ca as u32) < (cb as u32);
        }
        i = i + 1;
    }
    proof {
        lemma_lex_skip(a@, b@, i as int);
        assert(a@.skip(i as int).len() == an - i);
        assert(b@.skip(i as int).len() == bn - i);
    }
    an <= bn
}

/// A decimal digit.
pub open spec fn is_dec_digit(c: char) -> bool {
    '0' <= c && c <= '9'
}

pub open spec fn digit_val(c: char) -> int {
    c as int - '0' as int
}

pub open spec fn all_digits(s: Seq<char>) -> bool {
    forall|i: int| 0 <= i < s.len() ==> is_dec_digit(#[trigger] s[i])
}

/// The value of a digit string, most significant digit first.
pub open spec fn dec_val(s: Seq<char>) -> int
    decreases s.len(),
{
    if s.len() == 0 {
        0
    } else {
        dec_val(s.drop_last()) * 10 + digit_val(s.last())
    }
}

pub proof fn lemma_dec_val_nonneg(s: Seq<char>)
    requires
        all_digits(s),
    ensures
        dec_val(s) >= 0,
    decreases s.len(),
{
    if s.len() > 0 {
        assert(all_digits(s.drop_last()));
        lemma_dec_val_nonneg(s.drop_last());
        assert(dec_val(s.drop_last()) * 10 >= 0) by (nonlinear_arith)
            requires dec_val(s.drop_last()) >= 0;
    }
}

/// What `u64::from_str_radix(s, 10)` returns: an optional leading `+`,
/// then at least one digit, and a value within range.
pub open spec fn spec_parse_u64(s: Seq<char>) -> Option<u64> {
    let t = if s.len() > 0 && s[0] == '+' { s.drop_first() } else { s };
    if t.len() > 0 && all_digits(t) && dec_val(t) <= u64::MAX {
        Some(dec_val(t) as u64)
    } else {
        None
    }
}

/// What `i64::from_str_radix(s, 10)` returns: an optional sign, then at
/// least one digit, and a value within range.
pub open spec fn spec_parse_i64(s: Seq<char>) -> Option<i64> {
    if s.len() == 0 {
        None
    } else {
        let neg = s[0] == '-';
        let t = if s[0] == '-' || s[0] == '+' { s.drop_first() } else { s };
        if t.len() > 0 && all_digits(t) {
            let v = if neg { -dec_val(t) } else { dec_val(t) };
            if i64::MIN <= v <= i64::MAX {
                Some(v as i64)
            } else {
                None
            }
        } else {
            None
        }
    }
}

/// Accumulates the digits of `s` from position `start` on. Returns `None`
/// if that suffix is empty or holds a non-digit; otherwise the value,
/// with a flag that reports overflow past `u64::MAX`.
fn digits_val(s: &str, start: usize) -> (r: Option<(u64, bool)>)
    requires
        start <= s@.len(),
    ensures
        match r {
            Option::None => !(s@.skip(start as int).len() > 0 && all_digits(s@.skip(start as int))),
            Option::Some((acc, over)) => {
                let t = s@.skip(start as int);
                t.len() > 0 && all_digits(t) && (if over {
                    dec_val(t) > u64::MAX
                } else {
                    acc == dec_val(t) && dec_val(t) <= u64::MAX
                })
            },
        },
{
    let n = s.unicode_len();
    if start == n {
        return None;
    }
    let ghost t = s@.skip(start as int);
    let mut acc: u64 = 0;
    let mut over: bool = false;
    let mut i: usize = start;
    while i < n
        invariant
            n == s@.len(),
            start <= i <= n,
            t == s@.skip(start as int),
            all_digits(t.take(i - start)),
            over ==> dec_val(t.take(i - start)) > u64::MAX,
            !over ==> acc == dec_val(t.take(i - start)) && dec_val(t.take(i - start)) <= u64::MAX,
        decreases n - i,
    {
        let c = s.get_char(i);
        if !('0' <= c && c <= '9') {
            assert(t[i - start] == c);
            return None;
        }
        let d: u64 = ((c as u32) - 48) as u64;
        let ghost p = t.take(i - start);
        let ghost q = t.take(i + 1 - start);
        proof {
            assert(q.drop_last() =~= p);
            assert(q.last() == t[i - start] && t[i - start] == c);
            assert(dec_val(q) == dec_val(p) * 10 + digit_val(c));
            lemma_dec_val_nonneg(p);
        }
        if over {
            proof {
                assert(dec_val(p) * 10 + digit_val(c) > u64::MAX) by (nonlinear_arith)
                    requires dec_val(p) > u64::MAX, digit_val(c) >= 0;
            }
        } else if acc > (u64::MAX - d) / 10 {
            over = true;
            proof {
                vstd::arithmetic::div_mod::lemma_fundamental_div_mod((u64::MAX - d) as int, 10);
                assert(acc * 10 >= ((u64::MAX - d) / 10 + 1) * 10) by (nonlinear_arith)
                    requires acc >= (u64::MAX - d) / 10 + 1;
                assert(dec_val(q) > u64::MAX);
            }
        } else {
            proof {
                vstd::arithmetic::div_mod::lemma_fundamental_div_mod((u64::MAX - d) as int, 10);
                assert(acc * 10 <= ((u64::MAX - d) / 10) * 10) by (nonlinear_arith)
                    requires acc <= (u64::MAX - d) / 10;
            }
            acc = acc * 10 + d;
        }
        i = i + 1;
    }
    proof {
        assert(t.take(n - start) =~= t);
    }
    Some((acc, over))
}

/// What `u64::from_str_radix(s, 10)` returns, executable form.
pub fn parse_u64(s: &str) -> (r: Option<u64>)
    ensures
        r == spec_parse_u64(s@),
{
    let n = s.unicode_len();
    let start: usize = if n > 0 && s.get_char(0) == '+' {
        1
    } else {
        0
    };
    proof {
        if start == 1 {
            assert(s@.skip(1) =~= s@.drop_first());
        } else {
            assert(s@.skip(0) =~= s@);
        }
    }
    match digits_val(s, start) {
        Option::None => None,
        Option::Some((acc, over)) => if over {
            None
        } else {
            Some(acc)
        },
    }
}

/// What `i64::from_str_radix(s, 10)` returns, executable form.
pub fn parse_i64(s: &str) -> (r: Option<i64>)
    ensures
        r == spec_parse_i64(s@),
{
    let n = s.unicode_len();
    if n == 0 {
        return None;
    }
    let c0 = s.get_char(0);
    let neg = c0 == '-';
    let start: usize = if c0 == '-' || c0 == '+' {
        1
    } else {
        0
    };
    proof {
        if start == 1 {
            assert(s@.skip(1) =~= s@.drop_first());
        } else {
            assert(s@.skip(0) =~= s@);
        }
    }
    match digits_val(s, start) {
        Option::None => None,
        Option::Some((acc, over)) => {
            if neg {
                if over || acc > 9223372036854775808u64 {
                    None
                } else if acc == 0 {
                    Some(0i64)
                } else if acc == 9223372036854775808u64 {
                    Some(i64::MIN)
                } else {
                    Some(-(acc as i64))
                }
            } else {
                if over || acc > 9223372036854775807u64 {
                    None
                } else {
                    Some(acc as i64)
                }
            }
        },
    }
}

/// A single decimal digit as a character.
pub open spec fn dec_digit_char(d: int) -> char {
    ((48 + d) as u8) as char
}

/// The decimal representation of a non-negative number, no sign, no
/// leading zeros (a lone zero for 0).
pub open spec fn u64_dec(n: int) -> Seq<char>
    decreases n,
{
    if n < 10 {
        seq![dec_digit_char(n)]
    } else {
        u64_dec(n / 10).push(dec_digit_char(n % 10))
    }
}

/// The decimal representation of a number, executable form.
pub fn u64_chars(n: u64) -> (r: Vec<char>)
    ensures
        r@ == u64_dec(n as int),
    decreases n,
{
    if n < 10 {
        let mut v: Vec<char> = Vec::new();
        v.push(((48 + (n as u8)) as char));
        proof {
            assert(v@ =~= u64_dec(n as int));
        }
        v
    } else {
        let mut v = u64_chars(n / 10);
        v.push((48 + ((n % 10) as u8)) as char);
        v
    }
}

} // verus!
