//! Character-level text operations: equality, prefixes, splitting on commas,
//! trimming whitespace and reading decimal integers.
use vstd::prelude::*;

verus! {

/// The characters of `s`, in order.
pub fn chars_of(s: &str) -> (v: Vec<char>)
    ensures
        v@ == s@,
{
    let n = s.unicode_len();
    let mut v: Vec<char> = Vec::new();
    let mut i: usize = 0;
    while i < n
        invariant
            n == s@.len(),
            i <= n,
            v@ == s@.take(i as int),
        decreases n - i,
    {
        v.push(s.get_char(i));
        assert(s@.take(i + 1) =~= s@.take(i as int).push(s@[i as int]));
        i = i + 1;
    }
    assert(s@.take(n as int) =~= s@);
    v
}

/// True when `s` and `t` hold the same characters.
pub fn text_eq(s: &str, t: &str) -> (eq: bool)
    ensures
        eq == (s@ == t@),
{
    let n = s.unicode_len();
    if n != t.unicode_len() {
        return false;
    }
    let mut i: usize = 0;
    while i < n
        invariant
            n == s@.len(),
            n == t@.len(),
            i <= n,
            s@.take(i as int) == t@.take(i as int),
        decreases n - i,
    {
        if s.get_char(i) != t.get_char(i) {
            assert(s@[i as int] != t@[i as int]);
            return false;
        }
        assert(s@.take(i + 1) =~= s@.take(i as int).push(s@[i as int]));
        assert(t@.take(i + 1) =~= t@.take(i as int).push(t@[i as int]));
        i = i + 1;
    }
    assert(s@.take(n as int) =~= s@);
    assert(t@.take(n as int) =~= t@);
    true
}

/// True when `s` begins with `p`.
pub open spec fn has_prefix(s: Seq<char>, p: Seq<char>) -> bool {
    p.len() <= s.len() && s.take(p.len() as int) == p
}

/// True when `s` begins with `p`.
pub fn starts_with(s: &str, p: &str) -> (yes: bool)
    ensures
        yes == has_prefix(s@, p@),
{
    let n = s.unicode_len();
    let m = p.unicode_len();
    if m > n {
        return false;
    }
    let mut i: usize = 0;
    while i < m
        invariant
            n == s@.len(),
            m == p@.len(),
            m <= n,
            i <= m,
            s@.take(i as int) == p@.take(i as int),
        decreases m - i,
    {
        if s.get_char(i) != p.get_char(i) {
            assert(s@.take(m as int)[i as int] != p@[i as int]);
            return false;
        }
        assert(s@.take(i + 1) =~= s@.take(i as int).push(s@[i as int]));
        assert(p@.take(i + 1) =~= p@.take(i as int).push(p@[i as int]));
        i = i + 1;
    }
    assert(p@.take(m as int) =~= p@);
    true
}

/// True for the characters with the Unicode `White_Space` property, which
/// are the ones `char::is_whitespace` accepts.
pub open spec fn is_space(c: char) -> bool {
    ||| '\u{9}' <= c <= '\u{d}'
    ||| c == ' '
    ||| c == '\u{85}'
    ||| c == '\u{a0}'
    ||| c == '\u{1680}'
    ||| '\u{2000}' <= c <= '\u{200a}'
    ||| c == '\u{2028}'
    ||| c == '\u{2029}'
    ||| c == '\u{202f}'
    ||| c == '\u{205f}'
    ||| c == '\u{3000}'
}

/// True when `c` is white space.
pub fn is_space_char(c: char) -> (yes: bool)
    ensures
        yes == is_space(c),
{
    ('\u{9}' <= c && c <= '\u{d}') || c == ' ' || c == '\u{85}' || c == '\u{a0}' || c == '\u{1680}'
        || ('\u{2000}' <= c && c <= '\u{200a}') || c == '\u{2028}' || c == '\u{2029}' || c == '\u{202f}'
        || c == '\u{205f}' || c == '\u{3000}'
}

/// `s` without its leading white space.
pub open spec fn trim_start(s: Seq<char>) -> Seq<char>
    decreases s.len(),
{
    if s.len() > 0 && is_space(s[0]) {
        trim_start(s.drop_first())
    } else {
        s
    }
}

/// `s` without its trailing white space.
pub open spec fn trim_end(s: Seq<char>) -> Seq<char>
    decreases s.len(),
{
    if s.len() > 0 && is_space(s.last()) {
        trim_end(s.drop_last())
    } else {
        s
    }
}

/// `s` without leading and trailing white space.
pub open spec fn trim(s: Seq<char>) -> Seq<char> {
    trim_end(trim_start(s))
}

/// The bounds `(lo, hi)` of the part of `s[start..end]` left after trimming
/// white space from both ends.
pub fn trim_bounds(s: &Vec<char>, start: usize, end: usize) -> (r: (usize, usize))
    requires
        start <= end <= s@.len(),
    ensures
        start <= r.0 <= r.1 <= end,
        s@.subrange(r.0 as int, r.1 as int) == trim(s@.subrange(start as int, end as int)),
{
    let mut lo = start;
    while lo < end && is_space_char(s[lo])
        invariant
            start <= lo <= end,
            end <= s@.len(),
            trim_start(s@.subrange(start as int, end as int)) == trim_start(s@.subrange(lo as int, end as int)),
        decreases end - lo,
    {
        assert(s@.subrange(lo as int, end as int).drop_first() =~= s@.subrange(lo + 1, end as int));
        lo = lo + 1;
    }
    assert(trim_start(s@.subrange(lo as int, end as int)) == s@.subrange(lo as int, end as int));
    let mut hi = end;
    while hi > lo && is_space_char(s[hi - 1])
        invariant
            lo <= hi <= end,
            end <= s@.len(),
            trim_end(s@.subrange(lo as int, end as int)) == trim_end(s@.subrange(lo as int, hi as int)),
        decreases hi - lo,
    {
        assert(s@.subrange(lo as int, hi as int).drop_last() =~= s@.subrange(lo as int, hi - 1));
        hi = hi - 1;
    }
    (lo, hi)
}

/// The pieces of `s` between commas, in order (`s` itself when it holds none).
pub open spec fn split_commas(s: Seq<char>) -> Seq<Seq<char>>
    decreases s.len(),
{
    if s.len() == 0 {
        seq![Seq::<char>::empty()]
    } else {
        let rest = split_commas(s.drop_last());
        if s.last() == ',' {
            rest.push(Seq::<char>::empty())
        } else {
            rest.update(rest.len() - 1, rest.last().push(s.last()))
        }
    }
}

/// Splitting always yields at least one piece.
pub proof fn lemma_split_nonempty(s: Seq<char>)
    ensures
        split_commas(s).len() >= 1,
    decreases s.len(),
{
    if s.len() > 0 {
        lemma_split_nonempty(s.drop_last());
    }
}

/// The bounds of the pieces of `s` between commas, in order.
pub fn split_bounds(s: &Vec<char>) -> (parts: Vec<(usize, usize)>)
    ensures
        parts@.len() == split_commas(s@).len(),
        forall|k: int| 0 <= k < parts@.len() ==> (#[trigger] parts@[k]).0 <= parts@[k].1 <= s@.len()
            && s@.subrange(parts@[k].0 as int, parts@[k].1 as int) == split_commas(s@)[k],
{
    let n = s.len();
    let mut parts: Vec<(usize, usize)> = Vec::new();
    parts.push((0, 0));
    let mut i: usize = 0;
    while i < n
        invariant
            n == s@.len(),
            i <= n,
            parts@.len() >= 1,
            parts@.len() == split_commas(s@.take(i as int)).len(),
            parts@[parts@.len() - 1].1 == i,
            forall|k: int| 0 <= k < parts@.len() ==> (#[trigger] parts@[k]).0 <= parts@[k].1 <= i
                && s@.subrange(parts@[k].0 as int, parts@[k].1 as int) == split_commas(s@.take(i as int))[k],
        decreases n - i,
    {
        let ghost prev = split_commas(s@.take(i as int));
        assert(s@.take(i + 1).drop_last() =~= s@.take(i as int));
        proof {
            lemma_split_nonempty(s@.take(i as int));
        }
        if s[i] == ',' {
            parts.push((i + 1, i + 1));
            assert forall|k: int| 0 <= k < parts@.len() implies (#[trigger] parts@[k]).0 <= parts@[k].1 <= i + 1
                && s@.subrange(parts@[k].0 as int, parts@[k].1 as int) == split_commas(s@.take(i + 1))[k] by {
                if k == parts@.len() - 1 {
                    assert(s@.subrange(i + 1, i + 1) =~= Seq::<char>::empty());
                }
            }
        } else {
            let last = parts.len() - 1;
            let (a, _) = parts[last];
            parts.set(last, (a, i + 1));
            assert forall|k: int| 0 <= k < parts@.len() implies (#[trigger] parts@[k]).0 <= parts@[k].1 <= i + 1
                && s@.subrange(parts@[k].0 as int, parts@[k].1 as int) == split_commas(s@.take(i + 1))[k] by {
                if k == parts@.len() - 1 {
                    assert(s@.subrange(a as int, i + 1) =~= s@.subrange(a as int, i as int).push(s@[i as int]));
                }
            }
        }
        i = i + 1;
    }
    assert(s@.take(n as int) =~= s@);
    parts
}

/// True for the ASCII decimal digits.
pub open spec fn is_digit(c: char) -> bool {
    '0' <= c <= '9'
}

/// The value of the decimal digits `s` (most significant first).
pub open spec fn digits_value(s: Seq<char>) -> int
    decreases s.len(),
{
    if s.len() == 0 {
        0
    } else {
        10 * digits_value(s.drop_last()) + (s.last() as int - '0' as int)
    }
}

/// `s` without a leading `+` or `-` sign.
pub open spec fn unsigned_part(s: Seq<char>) -> Seq<char> {
    if s.len() > 0 && (s[0] == '-' || s[0] == '+') {
        s.drop_first()
    } else {
        s
    }
}

/// True when every character of `s` is a decimal digit.
pub open spec fn all_digits(s: Seq<char>) -> bool {
    forall|i: int| 0 <= i < s.len() ==> #[trigger] is_digit(s[i])
}

/// The `i32` written in `s` as `i32::from_str` reads it: an optional `+` or
/// `-` sign followed by at least one ASCII decimal digit and nothing else,
/// with a value that fits in an `i32`.
pub open spec fn parse_i32_spec(s: Seq<char>) -> Option<i32> {
    let digits = unsigned_part(s);
    if digits.len() == 0 || !all_digits(digits) {
        None
    } else {
        let v = if s.len() > 0 && s[0] == '-' { -digits_value(digits) } else { digits_value(digits) };
        if i32::MIN <= v <= i32::MAX {
            Some(v as i32)
        } else {
            None
        }
    }
}

/// A longer run of digits is worth at least as much as its prefix.
proof fn lemma_digits_value_grows(s: Seq<char>, k: int)
    requires
        0 <= k <= s.len(),
        forall|i: int| 0 <= i < s.len() ==> #[trigger] is_digit(s[i]),
    ensures
        digits_value(s) >= digits_value(s.take(k)) >= 0,
    decreases s.len(),
{
    if s.len() > 0 {
        assert forall|i: int| 0 <= i < s.len() - 1 implies #[trigger] is_digit(s.drop_last()[i]) by {
            assert(s.drop_last()[i] == s[i]);
        }
        assert(is_digit(s[s.len() - 1]));
        if k == s.len() {
            assert(s.take(k) =~= s);
            lemma_digits_value_grows(s.drop_last(), k - 1);
        } else {
            assert(s.drop_last().take(k) =~= s.take(k));
            lemma_digits_value_grows(s.drop_last(), k);
        }
    }
}

/// Reads the `i32` written in `s[start..end]`, as `i32::from_str` does.
#[verifier::loop_isolation(false)]
pub fn parse_i32(s: &Vec<char>, start: usize, end: usize) -> (r: Option<i32>)
    requires
        start <= end <= s@.len(),
    ensures
        r == parse_i32_spec(s@.subrange(start as int, end as int)),
{
    let ghost t = s@.subrange(start as int, end as int);
    if start == end {
        return None;
    }
    let negative = s[start] == '-';
    let signed = negative || s[start] == '+';
    let first = if signed { start + 1 } else { start };
    let ghost digits = unsigned_part(t);
    assert(t[0] == s[start as int]);
    assert(digits =~= s@.subrange(first as int, end as int));
    assert(negative == (t.len() > 0 && t[0] == '-'));
    if first == end {
        return None;
    }
    // The magnitude read so far; it stays at most 2^31 + 9 < 2^63.
    let mut acc: i64 = 0;
    let mut i: usize = first;
    while i < end
        invariant
            first <= i <= end,
            end <= s@.len(),
            digits =~= s@.subrange(first as int, end as int),
            forall|j: int| 0 <= j < i - first ==> #[trigger] is_digit(digits[j]),
            acc == digits_value(digits.take(i - first)),
            0 <= acc <= 0x8000_0000,
        decreases end - i,
    {
        let c = s[i];
        if !('0' <= c && c <= '9') {
            assert(!is_digit(digits[i - first]));
            assert(!all_digits(digits));
            return None;
        }
        let ghost k = i - first;
        assert(digits.take(k + 1).drop_last() =~= digits.take(k));
        acc = 10 * acc + (c as i64 - '0' as i64);
        i = i + 1;
        if acc > 0x8000_0000 {
            // Any further digits only make the value larger.
            proof {
                if all_digits(digits) {
                    lemma_digits_value_grows(digits, i - first);
                    assert(digits_value(digits) > 0x8000_0000);
                }
                assert(parse_i32_spec(t) is None);
            }
            return None;
        }
    }
    assert(digits.take(end - first) =~= digits);
    if negative {
        Some((0 - acc) as i32)
    } else if acc > 0x7fff_ffff {
        None
    } else {
        Some(acc as i32)
    }
}

} // verus!
