//! Lines typed while building a board by hand: a blank line or `-1` ends the
//! input, anything else should be an address `row, col`.

use vstd::prelude::*;
use vstd::std_specs::iter::IteratorSpec;

verus! {

/// White space as `char::is_whitespace` has it: the characters with the
/// Unicode property White_Space.
pub open spec fn is_blank(c: char) -> bool {
    ('\u{9}' <= c && c <= '\u{d}') || c == ' ' || c == '\u{85}' || c == '\u{a0}' || c
        == '\u{1680}' || ('\u{2000}' <= c && c <= '\u{200a}') || c == '\u{2028}' || c
        == '\u{2029}' || c == '\u{202f}' || c == '\u{205f}' || c == '\u{3000}'
}

/// Whether `c` is white space.
fn is_blank_char(c: char) -> (r: bool)
    ensures
        r == is_blank(c),
{
    ('\u{9}' <= c && c <= '\u{d}') || c == ' ' || c == '\u{85}' || c == '\u{a0}' || c
        == '\u{1680}' || ('\u{2000}' <= c && c <= '\u{200a}') || c == '\u{2028}' || c
        == '\u{2029}' || c == '\u{202f}' || c == '\u{205f}' || c == '\u{3000}'
}

/// `s` without its leading white space.
pub open spec fn trim_front(s: Seq<char>) -> Seq<char>
    decreases s.len(),
{
    if s.len() > 0 && is_blank(s[0]) {
        trim_front(s.drop_first())
    } else {
        s
    }
}

/// `s` without its trailing white space.
pub open spec fn trim_back(s: Seq<char>) -> Seq<char>
    decreases s.len(),
{
    if s.len() > 0 && is_blank(s.last()) {
        trim_back(s.drop_last())
    } else {
        s
    }
}

/// `s` without white space at either end.
pub open spec fn trim(s: Seq<char>) -> Seq<char> {
    trim_back(trim_front(s))
}

/// Without its leading white space, `s` starts at `k`, given that its
/// leading blanks end there.
proof fn lemma_trim_front(s: Seq<char>, k: int)
    requires
        0 <= k <= s.len(),
        forall|m: int| 0 <= m < k ==> is_blank(#[trigger] s[m]),
        k == s.len() || !is_blank(s[k]),
    ensures
        trim_front(s) == s.subrange(k, s.len() as int),
    decreases k,
{
    if k == 0 {
        assert(s.subrange(0, s.len() as int) =~= s);
    } else {
        let t = s.drop_first();
        assert forall|m: int| 0 <= m < k - 1 implies is_blank(#[trigger] t[m]) by {
            assert(t[m] == s[m + 1]);
        }
        lemma_trim_front(t, k - 1);
        assert(t.subrange(k - 1, t.len() as int) =~= s.subrange(k, s.len() as int));
    }
}

/// Without its trailing white space, `s` ends at `k`, given that its
/// trailing blanks start there.
proof fn lemma_trim_back(s: Seq<char>, k: int)
    requires
        0 <= k <= s.len(),
        forall|m: int| k <= m < s.len() ==> is_blank(#[trigger] s[m]),
        k == 0 || !is_blank(s[k - 1]),
    ensures
        trim_back(s) == s.subrange(0, k),
    decreases s.len() - k,
{
    if k == s.len() {
        assert(s.subrange(0, k) =~= s);
    } else {
        let t = s.drop_last();
        assert forall|m: int| k <= m < t.len() implies is_blank(#[trigger] t[m]) by {
            assert(t[m] == s[m]);
        }
        lemma_trim_back(t, k);
        assert(t.subrange(0, k) =~= s.subrange(0, k));
    }
}

/// The characters of `line`, in order.
fn chars_of(line: &str) -> (r: Vec<char>)
    ensures
        r@ == line@,
{
    broadcast use vstd::string::axiom_spec_iter, vstd::string::next_postcondition;

    let mut it = line.chars();
    let mut v: Vec<char> = Vec::new();
    loop
        invariant
            v@ + IteratorSpec::remaining(&it) == line@,
            IteratorSpec::decrease(&it) is Some,
        ensures
            v@ == line@,
        decreases IteratorSpec::decrease(&it)->0,
    {
        match it.next() {
            Some(c) => {
                v.push(c);
                assert(v@ + IteratorSpec::remaining(&it) =~= line@);
            },
            None => {
                assert(v@ =~= line@);
                break;
            },
        }
    }
    v
}

/// The bounds of `s[lo..hi]` without white space at either end.
fn trim_range(s: &Vec<char>, lo: usize, hi: usize) -> (r: (usize, usize))
    requires
        lo <= hi <= s@.len(),
    ensures
        lo <= r.0 <= r.1 <= hi,
        s@.subrange(r.0 as int, r.1 as int) == trim(s@.subrange(lo as int, hi as int)),
{
    let mut a = lo;
    while a < hi && is_blank_char(s[a])
        invariant
            lo <= a <= hi <= s@.len(),
            forall|m: int| lo <= m < a ==> is_blank(#[trigger] s@[m]),
        decreases hi - a,
    {
        a = a + 1;
    }
    let ghost x = s@.subrange(lo as int, hi as int);
    proof {
        assert forall|m: int| 0 <= m < a - lo implies is_blank(#[trigger] x[m]) by {
            assert(x[m] == s@[lo + m]);
        }
        lemma_trim_front(x, a - lo);
        assert(x.subrange(a - lo, x.len() as int) =~= s@.subrange(a as int, hi as int));
    }
    let mut b = hi;
    while b > a && is_blank_char(s[b - 1])
        invariant
            lo <= a <= b <= hi <= s@.len(),
            forall|m: int| b <= m < hi ==> is_blank(#[trigger] s@[m]),
        decreases b - a,
    {
        b = b - 1;
    }
    proof {
        let y = s@.subrange(a as int, hi as int);
        assert forall|m: int| b - a <= m < y.len() implies is_blank(#[trigger] y[m]) by {
            assert(y[m] == s@[a + m]);
        }
        lemma_trim_back(y, b - a);
        assert(y.subrange(0, b - a) =~= s@.subrange(a as int, b as int));
    }
    (a, b)
}

/// The value of the decimal digit `c`.
pub open spec fn digit_value(c: char) -> int {
    (c as u32) as int - 48
}

/// The number that a string of decimal digits writes.
pub open spec fn digits_value(s: Seq<char>) -> int
    decreases s.len(),
{
    if s.len() == 0 {
        0
    } else {
        10 * digits_value(s.drop_last()) + digit_value(s.last())
    }
}

/// Whether `s` is one or more decimal digits.
pub open spec fn all_digits(s: Seq<char>) -> bool {
    s.len() > 0 && forall|i: int| 0 <= i < s.len() ==> '0' <= #[trigger] s[i] && s[i] <= '9'
}

/// The integer that `s` writes: decimal digits, after an optional `+` or `-`.
pub open spec fn int_of(s: Seq<char>) -> Option<int> {
    if s.len() > 0 && (s[0] == '-' || s[0] == '+') {
        if all_digits(s.drop_first()) {
            Some(if s[0] == '-' { -digits_value(s.drop_first()) } else { digits_value(s.drop_first()) })
        } else {
            None
        }
    } else if all_digits(s) {
        Some(digits_value(s))
    } else {
        None
    }
}

/// The `i32` that `s` writes, where it writes one in range.
pub open spec fn i32_of(s: Seq<char>) -> Option<i32> {
    match int_of(s) {
        Some(v) => if i32::MIN <= v <= i32::MAX {
            Some(v as i32)
        } else {
            None
        },
        None => None,
    }
}

/// The `usize` that `s` writes: decimal digits after an optional `+`, in range.
pub open spec fn usize_of(s: Seq<char>) -> Option<usize> {
    let d = if s.len() > 0 && s[0] == '+' { s.drop_first() } else { s };
    if all_digits(d) && digits_value(d) <= usize::MAX {
        Some(digits_value(d) as usize)
    } else {
        None
    }
}

/// The number that the digits `s[lo..hi]` write, or `cap` where that is
/// larger; `None` where they are not all digits or there are none.
fn digits_capped(s: &Vec<char>, lo: usize, hi: usize, cap: u128) -> (r: Option<u128>)
    requires
        lo <= hi <= s@.len(),
        cap <= 0x1_0000_0000_0000_0000,
    ensures
        r == if all_digits(s@.subrange(lo as int, hi as int)) {
            Some(
                if digits_value(s@.subrange(lo as int, hi as int)) < cap {
                    digits_value(s@.subrange(lo as int, hi as int)) as u128
                } else {
                    cap
                },
            )
        } else {
            None::<u128>
        },
        all_digits(s@.subrange(lo as int, hi as int)) ==> digits_value(
            s@.subrange(lo as int, hi as int),
        ) >= 0,
{
    let ghost d = s@.subrange(lo as int, hi as int);
    if lo == hi {
        return None;
    }
    let mut acc: u128 = 0;
    let mut i = lo;
    while i < hi
        invariant
            lo <= i <= hi <= s@.len(),
            cap <= 0x1_0000_0000_0000_0000,
            d == s@.subrange(lo as int, hi as int),
            forall|m: int| lo <= m < i ==> '0' <= #[trigger] s@[m] && s@[m] <= '9',
            digits_value(s@.subrange(lo as int, i as int)) >= 0,
            acc == if digits_value(s@.subrange(lo as int, i as int)) < cap {
                digits_value(s@.subrange(lo as int, i as int))
            } else {
                cap as int
            },
        decreases hi - i,
    {
        if !('0' <= s[i] && s[i] <= '9') {
            assert(d[i - lo] == s@[i as int]);
            return None;
        }
        let ghost v = digits_value(s@.subrange(lo as int, i as int));
        assert(s@.subrange(lo as int, i + 1).drop_last() =~= s@.subrange(lo as int, i as int));
        let digit = (s[i] as u32 - 48) as u128;
        assert(digit <= 9);
        if acc >= cap {
            assert(10 * v + digit >= cap) by (nonlinear_arith)
                requires
                    v >= cap,
                    digit >= 0,
            ;
        } else {
            let next = acc * 10 + digit;
            acc = if next > cap { cap } else { next };
        }
        i = i + 1;
    }
    assert(all_digits(d)) by {
        assert forall|m: int| 0 <= m < d.len() implies '0' <= #[trigger] d[m] && d[m] <= '9' by {
            assert(d[m] == s@[lo + m]);
        }
    }
    Some(acc)
}

/// The `i32` that `s[lo..hi]` writes, if any.
fn parse_i32(s: &Vec<char>, lo: usize, hi: usize) -> (r: Option<i32>)
    requires
        lo <= hi <= s@.len(),
    ensures
        r == i32_of(s@.subrange(lo as int, hi as int)),
{
    let ghost t = s@.subrange(lo as int, hi as int);
    if lo == hi {
        return None;
    }
    assert(t[0] == s@[lo as int]);
    let signed = s[lo] == '-' || s[lo] == '+';
    let start = if signed { lo + 1 } else { lo };
    assert(signed ==> s@.subrange(start as int, hi as int) =~= t.drop_first());
    assert(!signed ==> s@.subrange(start as int, hi as int) =~= t);
    let ghost d = s@.subrange(start as int, hi as int);
    let r = digits_capped(s, start, hi, 2147483649);
    assert(r is Some ==> all_digits(d) && digits_value(d) >= 0);
    assert(r is Some && r->Some_0 <= 2147483648 ==> digits_value(d) == r->Some_0);
    assert(r is Some && r->Some_0 > 2147483648 ==> digits_value(d) > 2147483648);
    match r {
        None => None,
        Some(m) => if s[lo] == '-' {
            if m <= 2147483648 {
                Some((0 - m as i64) as i32)
            } else {
                None
            }
        } else if m <= 2147483647 {
            Some(m as i32)
        } else {
            None
        },
    }
}

/// Reads the size typed for a new board: `None` where the line, without white
/// space at either end, is not a `usize` (see `usize_of`).
pub fn parse_size_line(line: &str) -> (r: Option<usize>)
    ensures
        r == usize_of(trim(line@)),
{
    let s = chars_of(line);
    let n = s.len();
    assert(s@.subrange(0, n as int) =~= s@);
    let (a, b) = trim_range(&s, 0, n);
    let ghost t = s@.subrange(a as int, b as int);
    if a == b {
        return None;
    }
    assert(t[0] == s@[a as int]);
    let start = if s[a] == '+' { a + 1 } else { a };
    assert(s@[a as int] == '+' ==> s@.subrange(start as int, b as int) =~= t.drop_first());
    assert(s@[a as int] != '+' ==> s@.subrange(start as int, b as int) =~= t);
    let ghost d = s@.subrange(start as int, b as int);
    let r = digits_capped(&s, start, b, usize::MAX as u128 + 1);
    assert(r is Some ==> all_digits(d) && digits_value(d) >= 0);
    assert(r is Some && r->Some_0 <= usize::MAX ==> digits_value(d) == r->Some_0);
    assert(r is Some && r->Some_0 > usize::MAX ==> digits_value(d) > usize::MAX);
    match r {
        None => None,
        Some(m) => if m <= usize::MAX as u128 {
            Some(m as usize)
        } else {
            None
        },
    }
}

/// What a typed line asks for.
#[derive(Debug, Clone, Copy, PartialEq, Eq, Structural)]
pub enum AddressLine {
    /// A blank line or `-1`: no more addresses.
    Done,
    /// `row, col`: the address of a cell to mark alive.
    Address(i32, i32),
    /// Neither of the above; the line should be typed again.
    Unreadable,
}

/// The index of the first comma in `s`, or its length if it has none.
pub open spec fn comma_index(s: Seq<char>) -> int
    decreases s.len(),
{
    if s.len() == 0 || s[0] == ',' {
        0
    } else {
        1 + comma_index(s.drop_first())
    }
}

/// What the line `s` asks for: done where it is blank or `-1` once white
/// space is trimmed; an address where it is two `i32` numbers separated by a
/// comma, each with optional white space around it; else unreadable.
pub open spec fn address_line_of(s: Seq<char>) -> AddressLine {
    let t = trim(s);
    if t.len() == 0 || t == seq!['-', '1'] {
        AddressLine::Done
    } else {
        let k = comma_index(s);
        if k < s.len() {
            match (i32_of(trim(s.subrange(0, k))), i32_of(trim(s.subrange(k + 1, s.len() as int)))) {
                (Some(row), Some(col)) => AddressLine::Address(row, col),
                _ => AddressLine::Unreadable,
            }
        } else {
            AddressLine::Unreadable
        }
    }
}

/// The first comma of `s` is at `k`, given that none comes before it.
proof fn lemma_comma_index(s: Seq<char>, k: int)
    requires
        0 <= k <= s.len(),
        forall|m: int| 0 <= m < k ==> #[trigger] s[m] != ',',
        k == s.len() || s[k] == ',',
    ensures
        comma_index(s) == k,
    decreases k,
{
    if k > 0 {
        let t = s.drop_first();
        assert forall|m: int| 0 <= m < k - 1 implies #[trigger] t[m] != ',' by {
            assert(t[m] == s[m + 1]);
        }
        lemma_comma_index(t, k - 1);
    }
}

/// Reads one typed line: see `address_line_of`.
pub fn parse_address_line(line: &str) -> (r: AddressLine)
    ensures
        r == address_line_of(line@),
{
    let s = chars_of(line);
    let n = s.len();
    assert(s@.subrange(0, n as int) =~= s@);
    let (a, b) = trim_range(&s, 0, n);
    let ghost t = s@.subrange(a as int, b as int);
    if a == b {
        return AddressLine::Done;
    }
    if b - a == 2 && s[a] == '-' && s[a + 1] == '1' {
        assert(t =~= seq!['-', '1']);
        return AddressLine::Done;
    }
    assert(t.len() == 2 ==> t[0] == s@[a as int] && t[1] == s@[a + 1]);
    let mut k: usize = 0;
    while k < n && s[k] != ','
        invariant
            k <= n == s@.len(),
            forall|m: int| 0 <= m < k ==> #[trigger] s@[m] != ',',
        decreases n - k,
    {
        k = k + 1;
    }
    proof {
        lemma_comma_index(s@, k as int);
    }
    if k == n {
        return AddressLine::Unreadable;
    }
    let (a1, b1) = trim_range(&s, 0, k);
    let (a2, b2) = trim_range(&s, k + 1, n);
    match (parse_i32(&s, a1, b1), parse_i32(&s, a2, b2)) {
        (Some(row), Some(col)) => AddressLine::Address(row, col),
        _ => AddressLine::Unreadable,
    }
}

} // verus!
