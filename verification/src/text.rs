//! Text helpers: decimal numbers, white space and the characters of a string.
use vstd::prelude::*;

verus! {

/// Appends `c` to `s`: a wrapper of `String::push`.
#[verifier::external_body]
pub(crate) fn push_char(s: &mut String, c: char)
    ensures
        final(s)@ == old(s)@.push(c),
{
    s.push(c)
}

/// The characters of `s`, one by one.
pub fn chars_of(s: &str) -> (v: Vec<char>)
    ensures
        v@ == s@,
{
    let mut v: Vec<char> = Vec::new();
    let n = s.unicode_len();
    let mut i: usize = 0;
    while i < n
        invariant
            n == s@.len(),
            0 <= i <= n,
            v@ == s@.take(i as int),
        decreases n - i,
    {
        let c = s.get_char(i);
        v.push(c);
        proof {
            assert(s@.take(i as int + 1) =~= s@.take(i as int).push(c));
        }
        i += 1;
    }
    proof {
        assert(s@.take(n as int) =~= s@);
    }
    v
}

/// The string made of the characters `v`.
pub fn string_of(v: &Vec<char>) -> (s: String)
    ensures
        s@ == v@,
{
    let mut s = String::new();
    let mut i: usize = 0;
    while i < v.len()
        invariant
            0 <= i <= v@.len(),
            s@ == v@.take(i as int),
        decreases v@.len() - i,
    {
        push_char(&mut s, v[i]);
        proof {
            assert(v@.take(i as int + 1) =~= v@.take(i as int).push(v@[i as int]));
        }
        i += 1;
    }
    proof {
        assert(v@.take(v@.len() as int) =~= v@);
    }
    s
}

/// The character of decimal digit `d`.
pub open spec fn digit_char(d: int) -> char {
    if d == 0 {
        '0'
    } else if d == 1 {
        '1'
    } else if d == 2 {
        '2'
    } else if d == 3 {
        '3'
    } else if d == 4 {
        '4'
    } else if d == 5 {
        '5'
    } else if d == 6 {
        '6'
    } else if d == 7 {
        '7'
    } else if d == 8 {
        '8'
    } else {
        '9'
    }
}

/// The value of a decimal digit character, if it is one.
pub open spec fn digit_value(c: char) -> Option<nat> {
    if '0' <= c && c <= '9' {
        Some((c as int - '0' as int) as nat)
    } else {
        None
    }
}

/// `n` written in decimal, without leading zeros.
pub open spec fn decimal(n: nat) -> Seq<char>
    decreases n,
{
    if n < 10 {
        seq![digit_char(n as int)]
    } else {
        decimal(n / 10).push(digit_char((n % 10) as int))
    }
}

/// The character of digit `d`.
pub fn digit_to_char(d: u64) -> (c: char)
    requires
        d < 10,
    ensures
        c == digit_char(d as int),
        digit_value(c) == Some(d as nat),
{
    match d {
        0 => '0',
        1 => '1',
        2 => '2',
        3 => '3',
        4 => '4',
        5 => '5',
        6 => '6',
        7 => '7',
        8 => '8',
        _ => '9',
    }
}

/// Appends `n` in decimal to `s`.
pub fn push_decimal(s: &mut String, n: u64)
    ensures
        final(s)@ == old(s)@ + decimal(n as nat),
    decreases n,
{
    if n >= 10 {
        push_decimal(s, n / 10);
    }
    let c = digit_to_char(n % 10);
    push_char(s, c);
    proof {
        if n >= 10 {
            assert(decimal(n as nat) == decimal((n / 10) as nat).push(digit_char((n % 10) as int)));
        }
    }
}

/// Whether `c` is white space in the sense of Unicode's White_Space property.
pub open spec fn is_white(c: char) -> bool {
    ||| c == ' '
    ||| ('\t' <= c && c <= '\r')
    ||| c == '\u{85}'
    ||| c == '\u{a0}'
    ||| c == '\u{1680}'
    ||| ('\u{2000}' <= c && c <= '\u{200a}')
    ||| c == '\u{2028}'
    ||| c == '\u{2029}'
    ||| c == '\u{202f}'
    ||| c == '\u{205f}'
    ||| c == '\u{3000}'
}

/// Whether `c` is white space.
pub fn white(c: char) -> (r: bool)
    ensures
        r == is_white(c),
{
    c == ' ' || ('\t' <= c && c <= '\r') || c == '\u{85}' || c == '\u{a0}' || c == '\u{1680}' || (
    '\u{2000}' <= c && c <= '\u{200a}') || c == '\u{2028}' || c == '\u{2029}' || c == '\u{202f}'
        || c == '\u{205f}' || c == '\u{3000}'
}

/// `s` without white space at its start.
pub open spec fn trim_start(s: Seq<char>) -> Seq<char>
    decreases s.len(),
{
    if s.len() > 0 && is_white(s[0]) {
        trim_start(s.drop_first())
    } else {
        s
    }
}

/// `s` without white space at its end.
pub open spec fn trim_end(s: Seq<char>) -> Seq<char>
    decreases s.len(),
{
    if s.len() > 0 && is_white(s.last()) {
        trim_end(s.drop_last())
    } else {
        s
    }
}

/// `s` without white space at either end.
pub open spec fn trim(s: Seq<char>) -> Seq<char> {
    trim_end(trim_start(s))
}

/// `v` without white space at either end.
pub fn trim_chars(v: &Vec<char>) -> (r: Vec<char>)
    ensures
        r@ == trim(v@),
{
    let mut a: usize = 0;
    proof {
        assert(v@.subrange(0, v@.len() as int) =~= v@);
    }
    while a < v.len() && white(v[a])
        invariant
            0 <= a <= v@.len(),
            trim_start(v@) == trim_start(v@.subrange(a as int, v@.len() as int)),
        decreases v@.len() - a,
    {
        proof {
            let rest = v@.subrange(a as int, v@.len() as int);
            assert(rest.drop_first() =~= v@.subrange(a as int + 1, v@.len() as int));
        }
        a += 1;
    }
    let ghost start = v@.subrange(a as int, v@.len() as int);
    proof {
        assert(trim_start(start) == start);
    }
    let mut b: usize = v.len();
    while b > a && white(v[b - 1])
        invariant
            a <= b <= v@.len(),
            start == v@.subrange(a as int, v@.len() as int),
            trim_end(start) == trim_end(v@.subrange(a as int, b as int)),
        decreases b - a,
    {
        proof {
            let part = v@.subrange(a as int, b as int);
            assert(part.drop_last() =~= v@.subrange(a as int, b as int - 1));
        }
        b -= 1;
    }
    let mut r: Vec<char> = Vec::new();
    let mut i = a;
    while i < b
        invariant
            a <= i <= b <= v@.len(),
            r@ == v@.subrange(a as int, i as int),
        decreases b - i,
    {
        r.push(v[i]);
        proof {
            assert(v@.subrange(a as int, i as int + 1) =~= v@.subrange(a as int, i as int).push(v@[i as int]));
        }
        i += 1;
    }
    proof {
        let part = v@.subrange(a as int, b as int);
        assert(trim_end(part) == part);
    }
    r
}

/// The number written by the decimal digits `s`, if `s` is a non-empty run of digits.
pub open spec fn digits_value(s: Seq<char>) -> Option<nat>
    decreases s.len(),
{
    if s.len() == 0 {
        None
    } else if s.len() == 1 {
        digit_value(s[0])
    } else {
        match (digits_value(s.drop_last()), digit_value(s.last())) {
            (Some(h), Some(d)) => Some(h * 10 + d),
            _ => None,
        }
    }
}

/// What parsing `s` as an unsigned number gives: an optional `+`, then decimal digits; nothing
/// when the value exceeds `max`.
pub open spec fn parse_unsigned(s: Seq<char>, max: nat) -> Option<nat> {
    let body = if s.len() > 0 && s[0] == '+' { s.drop_first() } else { s };
    match digits_value(body) {
        Some(v) => if v <= max { Some(v) } else { None },
        None => None,
    }
}

/// Parses `s` as an unsigned number no larger than `max`.
pub fn parse_number(s: &Vec<char>, max: u64) -> (r: Option<u64>)
    ensures
        r matches Some(v) ==> parse_unsigned(s@, max as nat) == Some(v as nat),
        r is None ==> parse_unsigned(s@, max as nat) is None,
{
    let mut i: usize = 0;
    if s.len() > 0 && s[0] == '+' {
        i = 1;
    }
    let ghost body = if s@.len() > 0 && s@[0] == '+' { s@.drop_first() } else { s@ };
    proof {
        assert(body =~= s@.subrange(i as int, s@.len() as int));
    }
    if i >= s.len() {
        proof {
            assert(body.len() == 0);
        }
        return None;
    }
    let mut value: u64 = 0;
    let mut k: usize = i;
    while k < s.len()
        invariant
            i < s@.len(),
            i <= k <= s@.len(),
            body == s@.subrange(i as int, s@.len() as int),
            body == (if s@.len() > 0 && s@[0] == '+' { s@.drop_first() } else { s@ }),
            value <= max,
            k == i ==> value == 0,
            k > i ==> digits_value(body.take(k - i)) == Some(value as nat),
        decreases s@.len() - k,
    {
        let c = s[k];
        if !('0' <= c && c <= '9') {
            proof {
                assert(body[k - i] == c);
                lemma_digits_none(body, k - i);
            }
            return None;
        }
        let d = (c as u32 - '0' as u32) as u64;
        let ghost prefix = body.take(k - i + 1);
        proof {
            assert(prefix.last() == c);
            assert(digit_value(c) == Some(d as nat));
            if k > i {
                assert(prefix.drop_last() =~= body.take(k - i));
            }
            assert(digits_value(prefix) == Some((value * 10 + d) as nat));
        }
        let next: u128 = value as u128 * 10 + d as u128;
        if next > max as u128 {
            proof {
                lemma_digits_monotone(body, k - i + 1);
            }
            return None;
        }
        value = next as u64;
        k += 1;
    }
    proof {
        assert(body.take(body.len() as int) =~= body);
    }
    Some(value)
}

/// A run that holds a non-digit has no value.
pub proof fn lemma_digits_none(s: Seq<char>, k: int)
    requires
        0 <= k < s.len(),
        digit_value(s[k]) is None,
    ensures
        digits_value(s) is None,
    decreases s.len(),
{
    if s.len() > 1 && k < s.len() - 1 {
        lemma_digits_none(s.drop_last(), k);
    }
}

/// A run is worth at least as much as any of its prefixes.
proof fn lemma_digits_monotone(s: Seq<char>, k: int)
    requires
        0 < k <= s.len(),
        digits_value(s.take(k)) is Some,
    ensures
        digits_value(s) is None || digits_value(s).unwrap() >= digits_value(s.take(k)).unwrap(),
    decreases s.len() - k,
{
    if k == s.len() {
        assert(s.take(k) =~= s);
    } else {
        let t = s.drop_last();
        assert(t.take(k) =~= s.take(k));
        lemma_digits_monotone(t, k);
    }
}

/// Every character of a non-empty run of digits is a digit.
pub proof fn lemma_digits_some(s: Seq<char>)
    requires
        s.len() > 0,
        forall|j: int| 0 <= j < s.len() ==> (#[trigger] digit_value(s[j])) is Some,
    ensures
        digits_value(s) is Some,
    decreases s.len(),
{
    if s.len() > 1 {
        let t = s.drop_last();
        assert forall|j: int| 0 <= j < t.len() implies (#[trigger] digit_value(t[j])) is Some by {
            assert(t[j] == s[j]);
        }
        lemma_digits_some(t);
    }
}

/// The characters of `v` from `a` up to `b`.
pub fn slice_chars(v: &Vec<char>, a: usize, b: usize) -> (r: Vec<char>)
    requires
        a <= b <= v@.len(),
    ensures
        r@ == v@.subrange(a as int, b as int),
{
    let mut r: Vec<char> = Vec::new();
    let mut i = a;
    while i < b
        invariant
            a <= i <= b <= v@.len(),
            r@ == v@.subrange(a as int, i as int),
        decreases b - i,
    {
        r.push(v[i]);
        proof {
            assert(v@.subrange(a as int, i as int + 1) =~= v@.subrange(a as int, i as int).push(
                v@[i as int],
            ));
        }
        i += 1;
    }
    r
}

/// How many characters of `s` come before the first `c`; all of them when there is none.
pub open spec fn position_of(s: Seq<char>, c: char) -> nat
    decreases s.len(),
{
    if s.len() == 0 || s[0] == c {
        0
    } else {
        1 + position_of(s.drop_first(), c)
    }
}

/// The first `c` in `s` stands where `position_of` says, and none before it.
pub proof fn lemma_position_of(s: Seq<char>, c: char)
    ensures
        position_of(s, c) <= s.len(),
        position_of(s, c) < s.len() ==> s[position_of(s, c) as int] == c,
        forall|j: int| 0 <= j < position_of(s, c) ==> s[j] != c,
    decreases s.len(),
{
    if s.len() > 0 && s[0] != c {
        lemma_position_of(s.drop_first(), c);
        assert forall|j: int| 0 <= j < position_of(s, c) implies s[j] != c by {
            if j > 0 {
                assert(s[j] == s.drop_first()[j - 1]);
            }
        }
    }
}

/// Where the first `c` in `v` stands: see `position_of`.
pub fn find_char(v: &Vec<char>, c: char) -> (r: usize)
    ensures
        r == position_of(v@, c),
{
    let mut i: usize = 0;
    proof {
        assert(v@.skip(0) =~= v@);
    }
    while i < v.len() && v[i] != c
        invariant
            0 <= i <= v@.len(),
            position_of(v@, c) == i + position_of(v@.skip(i as int), c),
        decreases v@.len() - i,
    {
        proof {
            assert(v@.skip(i as int).drop_first() =~= v@.skip(i as int + 1));
        }
        i += 1;
    }
    proof {
        if i < v@.len() {
            assert(v@.skip(i as int)[0] == v@[i as int]);
        }
    }
    i
}

/// The value of the digits `s`, zero when there are none.
pub open spec fn digits_or_zero(s: Seq<char>) -> Option<nat> {
    if s.len() == 0 {
        Some(0)
    } else {
        digits_value(s)
    }
}

/// A number with at most one decimal, counted in tenths: an optional sign, then digits with
/// an optional decimal point, at least one digit in all. Digits past the first after the point
/// are read and dropped. Nothing when the text is not such a number or the value does not fit
/// in an `i32`.
pub open spec fn parse_tenths(s: Seq<char>) -> Option<int> {
    let negative = s.len() > 0 && s[0] == '-';
    let body = if s.len() > 0 && (s[0] == '+' || s[0] == '-') {
        s.drop_first()
    } else {
        s
    };
    let d = position_of(body, '.');
    let whole = body.take(d as int);
    let frac = if d < body.len() {
        body.skip(d + 1int)
    } else {
        Seq::empty()
    };
    if whole.len() + frac.len() == 0 {
        None
    } else {
        match (digits_or_zero(whole), digits_or_zero(frac)) {
            (Some(w), Some(_)) => {
                let t = w * 10 + if frac.len() > 0 {
                    digit_value(frac[0]).unwrap() as int
                } else {
                    0
                };
                let v = if negative {
                    -t
                } else {
                    t
                };
                if i32::MIN <= v && v <= i32::MAX {
                    Some(v)
                } else {
                    None
                }
            },
            _ => None,
        }
    }
}

/// Parses a number with at most one decimal into tenths: see `parse_tenths`.
pub fn parse_komi(s: &Vec<char>) -> (r: Option<i32>)
    ensures
        r matches Some(v) ==> parse_tenths(s@) == Some(v as int),
        r is None ==> parse_tenths(s@) is None,
{
    let len = s.len();
    let mut start: usize = 0;
    let mut negative = false;
    if len > 0 && (s[0] == '+' || s[0] == '-') {
        negative = s[0] == '-';
        start = 1;
    }
    let body = slice_chars(s, start, len);
    let ghost sbody = if s@.len() > 0 && (s@[0] == '+' || s@[0] == '-') {
        s@.drop_first()
    } else {
        s@
    };
    proof {
        assert(body@ =~= sbody);
        assert(negative == (s@.len() > 0 && s@[0] == '-'));
    }
    let d = find_char(&body, '.');
    proof {
        lemma_position_of(body@, '.');
    }
    let whole = slice_chars(&body, 0, d);
    let frac = if d < body.len() {
        slice_chars(&body, d + 1, body.len())
    } else {
        Vec::new()
    };
    proof {
        assert(whole@ =~= body@.take(d as int));
        if d < body@.len() {
            assert(frac@ =~= body@.skip(d + 1int));
        } else {
            assert(frac@ =~= Seq::<char>::empty());
        }
    }
    if whole.len() + frac.len() == 0 {
        return None;
    }
    let mut k: usize = 0;
    while k < frac.len()
        invariant
            0 <= k <= frac@.len(),
            forall|j: int| 0 <= j < k ==> (#[trigger] digit_value(frac@[j])) is Some,
            sbody == (if s@.len() > 0 && (s@[0] == '+' || s@[0] == '-') {
                s@.drop_first()
            } else {
                s@
            }),
            d == position_of(sbody, '.'),
            whole@ == sbody.take(d as int),
            frac@ == (if d < sbody.len() {
                sbody.skip(d + 1int)
            } else {
                Seq::empty()
            }),
            whole@.len() + frac@.len() > 0,
        decreases frac@.len() - k,
    {
        let c = frac[k];
        if !('0' <= c && c <= '9') {
            proof {
                lemma_digits_none(frac@, k as int);
            }
            return None;
        }
        k += 1;
    }
    proof {
        if frac@.len() > 0 {
            lemma_digits_some(frac@);
        }
    }
    let f: u64 = if frac.len() > 0 {
        (frac[0] as u32 - '0' as u32) as u64
    } else {
        0
    };
    let w: u64 = if whole.len() == 0 {
        0
    } else {
        if whole[0] == '+' {
            proof {
                lemma_digits_none(whole@, 0);
            }
            return None;
        }
        match parse_number(&whole, 1000000000) {
            Some(w) => w,
            None => return None,
        }
    };
    let t: u64 = w * 10 + f;
    if negative {
        if t > 2147483648 {
            return None;
        }
        Some((0 - (t as i64)) as i32)
    } else {
        if t > 2147483647 {
            return None;
        }
        Some(t as i32)
    }
}

} // verus!
