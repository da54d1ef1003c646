//! Reading the size out of the report of a disk-usage tool: its first field, a count
//! of kilobytes.
use vstd::prelude::*;

verus! {

/// ASCII whitespace: space, tab, line feed, form feed, carriage return.
pub open spec fn is_ascii_space(c: char) -> bool {
    c == ' ' || c == '\t' || c == '\n' || c == '\x0C' || c == '\r'
}

/// The first position at or after `i` that does not hold whitespace.
pub open spec fn skip_space(s: Seq<char>, i: int) -> int
    decreases s.len() - i,
{
    if 0 <= i < s.len() && is_ascii_space(s[i]) {
        skip_space(s, i + 1)
    } else {
        i
    }
}

/// The first position at or after `i` that holds whitespace, or the end.
pub open spec fn field_end(s: Seq<char>, i: int) -> int
    decreases s.len() - i,
{
    if 0 <= i < s.len() && !is_ascii_space(s[i]) {
        field_end(s, i + 1)
    } else {
        i
    }
}

/// The first whitespace-separated field of `s` (empty where there is none).
pub open spec fn first_field(s: Seq<char>) -> Seq<char> {
    let a = skip_space(s, 0);
    s.subrange(a, field_end(s, a))
}

/// Whether `c` is a decimal digit.
pub open spec fn is_digit(c: char) -> bool {
    '0' <= c && c <= '9'
}

/// The number written in decimal by the digits `s`.
pub open spec fn digits_value(s: Seq<char>) -> int
    decreases s.len(),
{
    if s.len() == 0 {
        0
    } else {
        digits_value(s.drop_last()) * 10 + (s.last() as int - '0' as int)
    }
}

/// The number that the digits `u` write, where there is at least one, each is a
/// decimal digit and the value fits in `u128`.
pub open spec fn digits_u128(u: Seq<char>) -> Option<u128> {
    if u.len() > 0 && (forall|i: int| 0 <= i < u.len() ==> is_digit(#[trigger] u[i])) && digits_value(u)
        <= u128::MAX {
        Some(digits_value(u) as u128)
    } else {
        None
    }
}

/// The unsigned number that `t` writes: decimal digits, at least one, after an
/// optional `'+'`, with a value that fits in `u128`.
pub open spec fn unsigned_value(t: Seq<char>) -> Option<u128> {
    if t.len() > 0 && t[0] == '+' {
        digits_u128(t.drop_first())
    } else {
        digits_u128(t)
    }
}

proof fn lemma_digits_prefix(u: Seq<char>, k: int)
    requires
        0 <= k <= u.len(),
        forall|i: int| 0 <= i < u.len() ==> is_digit(#[trigger] u[i]),
    ensures
        0 <= digits_value(u.take(k)) <= digits_value(u),
    decreases u.len(),
{
    if k == u.len() {
        assert(u.take(k) =~= u);
        if u.len() > 0 {
            lemma_digits_prefix(u.drop_last(), 0);
            assert(u.drop_last().take(0) =~= u.take(0));
            lemma_digits_prefix(u.drop_last(), u.len() - 1);
            assert(u.drop_last().take(u.len() - 1) =~= u.drop_last());
        }
    } else {
        assert(u.drop_last().take(k) =~= u.take(k));
        lemma_digits_prefix(u.drop_last(), k);
        lemma_digits_prefix(u.drop_last(), u.len() - 1);
        assert(u.drop_last().take(u.len() - 1) =~= u.drop_last());
        assert(is_digit(u[u.len() - 1]));
    }
}

/// The size in the report `output` of a disk-usage tool: the number written by its
/// first field, or `None` where that field is missing or is not an unsigned number
/// that fits in `u128`.
pub fn parse_disk_usage(output: &str) -> (r: Option<u128>)
    ensures
        r == unsigned_value(first_field(output@)),
{
    let ghost s = output@;
    let n = output.unicode_len();
    let mut a: usize = 0;
    while a < n && is_space(output.get_char(a))
        invariant
            a <= n == s.len(),
            s == output@,
            skip_space(s, 0) == skip_space(s, a as int),
        decreases n - a,
    {
        a = a + 1;
    }
    let mut b: usize = a;
    while b < n && !is_space(output.get_char(b))
        invariant
            a <= b <= n == s.len(),
            s == output@,
            skip_space(s, 0) == a,
            field_end(s, a as int) == field_end(s, b as int),
        decreases n - b,
    {
        b = b + 1;
    }
    let ghost t = s.subrange(a as int, b as int);
    proof {
        assert(t == first_field(s));
    }
    let mut c: usize = a;
    if c < b && output.get_char(c) == '+' {
        c = c + 1;
    }
    let ghost u = s.subrange(c as int, b as int);
    proof {
        if t.len() > 0 && t[0] == '+' {
            assert(u =~= t.drop_first());
        } else {
            assert(u =~= t);
        }
    }
    if c == b {
        return None;
    }
    let mut value: u128 = 0;
    let mut i: usize = c;
    proof {
        assert(u.take(0) =~= Seq::<char>::empty());
    }
    while i < b
        invariant
            c <= i <= b <= n == s.len(),
            s == output@,
            u == s.subrange(c as int, b as int),
            unsigned_value(first_field(s)) == digits_u128(u),
            forall|k: int| 0 <= k < i - c ==> is_digit(#[trigger] u[k]),
            value == digits_value(u.take(i - c)),
        decreases b - i,
    {
        let ch = output.get_char(i);
        if !('0' <= ch && ch <= '9') {
            proof {
                assert(u[i - c] == ch);
            }
            return None;
        }
        let d = (ch as u32 - '0' as u32) as u128;
        proof {
            assert(u[i - c] == ch);
            assert(u.take(i - c + 1).drop_last() =~= u.take(i - c));
            assert(u.take(i - c + 1).last() == ch);
        }
        let next = match value.checked_mul(10) {
            Some(v) => v.checked_add(d),
            None => None,
        };
        match next {
            Some(v) => {
                value = v;
            },
            None => {
                proof {
                    if forall|k: int| 0 <= k < u.len() ==> is_digit(#[trigger] u[k]) {
                        lemma_digits_prefix(u, i - c + 1);
                    }
                }
                return None;
            },
        }
        i = i + 1;
    }
    proof {
        assert(u.take(u.len() as int) =~= u);
    }
    Some(value)
}

/// Whether `c` is ASCII whitespace.
fn is_space(c: char) -> (r: bool)
    ensures
        r == is_ascii_space(c),
{
    c == ' ' || c == '\t' || c == '\n' || c == '\x0C' || c == '\r'
}

} // verus!
