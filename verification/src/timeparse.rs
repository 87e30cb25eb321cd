//! Date extraction from event text: the first "YYYY年[MM月[DD日]]" pattern
//! is turned into an approximate timestamp with 365-day years and 30-day
//! months; anything else yields the fixed default anchor.
use vstd::prelude::*;
use vstd::utf8::encode_scalar;
use vstd::utf8::encode_utf8;

use crate::text::char_utf8_len;
use crate::text::is_ws;
use crate::text::is_ws_char;
use crate::text::lemma_encode_utf8_push;

verus! {

/// The default anchor returned when no date is found.
pub const DEFAULT_TS: u64 = 1672531200;

/// An ASCII decimal digit.
pub open spec fn is_digit(c: char) -> bool {
    '0' <= c && c <= '9'
}

/// Every character is an ASCII digit.
pub open spec fn all_digits(s: Seq<char>) -> bool {
    forall|i: int| 0 <= i < s.len() ==> is_digit(#[trigger] s[i])
}

/// Ten to the power `k`.
pub open spec fn pow10(k: int) -> int
    decreases k,
{
    if k <= 0 {
        1
    } else {
        10 * pow10(k - 1)
    }
}

/// The value of a nonempty digit string.
pub open spec fn digits_val(s: Seq<char>) -> int
    decreases s.len(),
{
    if s.len() == 0 {
        0
    } else {
        digits_val(s.drop_last()) * 10 + (s.last() as int - '0' as int)
    }
}

/// The UTF-8 byte length of a character sequence.
pub open spec fn bytes_len(s: Seq<char>) -> int {
    encode_utf8(s).len() as int
}

/// The first index at or after `i` holding character `c`, or the length.
pub open spec fn find_char_from(s: Seq<char>, c: char, i: int) -> int
    decreases s.len() - i,
{
    if i < 0 || i >= s.len() {
        s.len() as int
    } else if s[i] == c {
        i
    } else {
        find_char_from(s, c, i + 1)
    }
}

/// The first index at or after `i` holding a non-whitespace character, or
/// the length.
pub open spec fn first_nw_from(s: Seq<char>, i: int) -> int
    decreases s.len() - i,
{
    if i < 0 || i >= s.len() {
        s.len() as int
    } else if !is_ws(s[i]) {
        i
    } else {
        first_nw_from(s, i + 1)
    }
}

/// The index one past the last non-whitespace character at or before
/// `i - 1`, or zero.
pub open spec fn last_nw_before(s: Seq<char>, i: int) -> int
    decreases i,
{
    if i <= 0 {
        0
    } else if !is_ws(s[i - 1]) {
        i
    } else {
        last_nw_before(s, i - 1)
    }
}

/// The sequence with surrounding whitespace removed.
pub open spec fn trim_of(s: Seq<char>) -> Seq<char> {
    let a = first_nw_from(s, 0);
    if a == s.len() {
        Seq::empty()
    } else {
        s.subrange(a, last_nw_before(s, s.len() as int))
    }
}

/// A trimmed window parses as a number iff it is nonempty and all digits.
pub open spec fn parse_trimmed(s: Seq<char>) -> Option<int> {
    let t = trim_of(s);
    if t.len() > 0 && all_digits(t) {
        Some(digits_val(t))
    } else {
        None
    }
}

/// The approximate timestamp of a calendar date: 365-day years from 1970,
/// 30-day months and 86400-second days, wrapping as a 64-bit value.
pub open spec fn approx_ts(year: int, month: int, day: int) -> u64 {
    ((((year - 1970) * 31536000 + month * 2592000 + day * 86400) % 0x10000000000000000)
        as u64)
}

/// The day parsed after a month match: the first day marker within five
/// bytes whose window parses, else the first day of the month.
pub open spec fn day_of(rest_day: Seq<char>) -> int {
    let r = find_char_from(rest_day, '日', 0);
    if r < rest_day.len() && bytes_len(rest_day.take(r)) <= 5 {
        match parse_trimmed(rest_day.take(r)) {
            Some(d) => d,
            None => 1,
        }
    } else {
        1
    }
}

/// The timestamp extracted scanning for a year marker from position `p`:
/// a year marker preceded by four digits whose first month marker stands
/// within five bytes and parses yields the date's timestamp; otherwise
/// the scan continues, and the default anchor ends it.
pub open spec fn ets_from(s: Seq<char>, p: int) -> u64
    decreases s.len() - p,
{
    if p < 0 || p >= s.len() {
        DEFAULT_TS
    } else if s[p] == '年' && p >= 4 && all_digits(s.subrange(p - 4, p)) {
        let year = digits_val(s.subrange(p - 4, p));
        let rest = s.skip(p + 1);
        let q = find_char_from(rest, '月', 0);
        if q < rest.len() && bytes_len(rest.take(q)) <= 5 && parse_trimmed(rest.take(q)) is Some {
            let month = parse_trimmed(rest.take(q))->Some_0;
            approx_ts(year, month, day_of(rest.skip(q + 1)))
        } else {
            ets_from(s, p + 1)
        }
    } else {
        ets_from(s, p + 1)
    }
}

/// The timestamp extracted from a text.
pub open spec fn ets_of(s: Seq<char>) -> u64 {
    ets_from(s, 0)
}

/// Finds the first occurrence of `c` at or after `from`.
fn find_char(s: &Vec<char>, c: char, from: usize) -> (r: usize)
    requires
        from <= s@.len(),
    ensures
        r == find_char_from(s@, c, from as int),
        from <= r <= s@.len(),
        r < s@.len() ==> s@[r as int] == c,
{
    let n = s.len();
    let mut i: usize = from;
    while i < n
        invariant
            n == s@.len(),
            from <= i <= n,
            find_char_from(s@, c, from as int) == find_char_from(s@, c, i as int),
        decreases n - i,
    {
        if s[i] == c {
            return i;
        }
        i = i + 1;
    }
    n
}

/// The byte length of a whole character vector.
fn bytes_len_of(w: &Vec<char>) -> (r: usize)
    requires
        w@.len() <= 8,
    ensures
        r == bytes_len(w@),
        r <= 32,
{
    let n = w.len();
    let mut acc: usize = 0;
    let mut i: usize = 0;
    while i < n
        invariant
            n == w@.len(),
            n <= 8,
            i <= n,
            acc == bytes_len(w@.take(i as int)),
            acc <= 4 * i,
        decreases n - i,
    {
        let l = char_utf8_len(w[i]);
        proof {
            lemma_encode_utf8_push(w@.take(i as int), w@[i as int]);
            assert(w@.take(i + 1) =~= w@.take(i as int).push(w@[i as int]));
        }
        acc = acc + l;
        i = i + 1;
    }
    proof {
        assert(w@.take(n as int) =~= w@);
    }
    acc
}

/// Decides whether every character of `w` is an ASCII digit.
fn all_digits_vec(w: &Vec<char>) -> (r: bool)
    ensures
        r == all_digits(w@),
{
    let n = w.len();
    let mut i: usize = 0;
    while i < n
        invariant
            n == w@.len(),
            i <= n,
            forall|j: int| 0 <= j < i ==> is_digit(#[trigger] w@[j]),
        decreases n - i,
    {
        let c = w[i];
        if c < '0' || c > '9' {
            return false;
        }
        i = i + 1;
    }
    true
}

/// Parses the trimmed character vector as a number.
fn parse_trimmed_vec(w: &Vec<char>) -> (r: Option<u32>)
    requires
        w@.len() <= 6,
    ensures
        match r {
            Some(v) => parse_trimmed(w@) == Some(v as int) && v < 1000000,
            None => parse_trimmed(w@) is None,
        },
{
    let n = w.len();
    let mut a: usize = 0;
    while a < n && is_ws_char(w[a])
        invariant
            n == w@.len(),
            a <= n,
            first_nw_from(w@, 0) == first_nw_from(w@, a as int),
        decreases n - a,
    {
        a = a + 1;
    }
    if a == n {
        proof {
            assert(first_nw_from(w@, 0) == w@.len());
        }
        return None;
    }
    proof {
        assert(first_nw_from(w@, 0) == a);
    }
    let mut b: usize = n;
    while b > a && is_ws_char(w[b - 1])
        invariant
            a < n == w@.len(),
            a < b <= n,
            !is_ws(w@[a as int]),
            last_nw_before(w@, n as int) == last_nw_before(w@, b as int),
        decreases b,
    {
        proof {
            assert(b - 1 > a) by {
                assert(is_ws(w@[b - 1]));
            }
        }
        b = b - 1;
    }
    proof {
        assert(b > a);
        assert(last_nw_before(w@, n as int) == b);
    }
    let ghost t = trim_of(w@);
    proof {
        assert(t == w@.subrange(a as int, b as int));
    }
    let mut val: u32 = 0;
    let mut i: usize = a;
    while i < b
        invariant
            a <= i <= b <= w@.len(),
            b - a <= 6,
            t == trim_of(w@),
            t == w@.subrange(a as int, b as int),
            t.len() == b - a,
            all_digits(t.take(i - a)),
            val == digits_val(t.take(i - a)),
            val < pow10(i - a),
            val < 1000000,
        decreases b - i,
    {
        let c = w[i];
        if c < '0' || c > '9' {
            proof {
                assert(t[i - a] == w@[i as int]);
                assert(!is_digit(t[i - a]));
                assert(!all_digits(t)) by {
                    assert(0 <= i - a < t.len() && !is_digit(t[i - a]));
                }
                assert(t == trim_of(w@));
                assert(parse_trimmed(w@) is None);
            }
            return None;
        }
        let d = (c as u32) - ('0' as u32);
        proof {
            assert(t.take(i - a + 1).drop_last() =~= t.take(i - a));
            assert(t.take(i - a + 1).last() == t[i - a]);
            assert(t[i - a] == w@[i as int]);
            assert forall|j: int| 0 <= j < i - a + 1 implies is_digit(
                #[trigger] t.take(i - a + 1)[j],
            ) by {
                if j < i - a {
                    assert(t.take(i - a + 1)[j] == t.take(i - a)[j]);
                }
            }
        }
        proof {
            assert(pow10(i - a + 1) == 10 * pow10(i - a));
            assert(pow10(0) == 1);
            assert(pow10(1) == 10);
            assert(pow10(2) == 100);
            assert(pow10(3) == 1000);
            assert(pow10(4) == 10000);
            assert(pow10(5) == 100000);
            assert(pow10(6) == 1000000);
            lemma_pow10_mono(i - a + 1, 6);
        }
        val = val * 10 + d;
        i = i + 1;
    }
    proof {
        assert(t.take(b - a) =~= t);
    }
    Some(val)
}

/// Extracts the approximate timestamp of the first parsable
/// "YYYY年MM月[DD日]" date in `s`, or the default anchor.
pub fn extract_timestamp(s: &Vec<char>) -> (r: u64)
    ensures
        r == ets_of(s@),
{
    let n = s.len();
    let mut p: usize = 0;
    while p < n
        invariant
            n == s@.len(),
            p <= n,
            ets_of(s@) == ets_from(s@, p as int),
        decreases n - p,
    {
        if s[p] == '年' && p >= 4 {
            let yw = crate::text::copy_range(s, p - 4, p);
            if all_digits_vec(&yw) {
                let year_v = match parse_trimmed_vec(&yw) {
                    Some(v) => v,
                    None => 0,
                };
                proof {
                    assert(yw@.len() == 4);
                    assert(!is_ws(yw@[0]));
                    assert(first_nw_from(yw@, 0) == 0);
                    assert(!is_ws(yw@[3]));
                    assert(last_nw_before(yw@, 4) == 4);
                    assert(trim_of(yw@) =~= yw@);
                    assert(year_v as int == digits_val(yw@));
                    assert(year_v < 1000000);
                }
                let q = find_char(s, '月', p + 1);
                let ghost rest = s@.skip(p + 1);
                proof {
                    lemma_find_char_skip(s@, '月', p + 1);
                    assert(find_char_from(rest, '月', 0) == q - (p + 1));
                    assert(rest.take(q - (p + 1)) =~= s@.subrange(p + 1, q as int));
                }
                let mut month_found = false;
                let mut month_v: u32 = 0;
                if q < n {
                    let mw = crate::text::copy_range(s, p + 1, q);
                    if mw.len() <= 5 {
                        if bytes_len_of(&mw) <= 5 {
                            match parse_trimmed_vec(&mw) {
                                Some(v) => {
                                    month_found = true;
                                    month_v = v;
                                },
                                None => {
                                },
                            }
                        }
                    } else {
                        proof {
                            lemma_bytes_len_ge_len(mw@);
                        }
                    }
                }
                if month_found {
                    let mut day_v: u32 = 1;
                    let r = find_char(s, '日', q + 1);
                    let ghost rest_day = s@.skip(q + 1);
                    proof {
                        lemma_find_char_skip(s@, '日', q + 1);
                        assert(find_char_from(rest_day, '日', 0) == r - (q + 1));
                        assert(rest_day.take(r - (q + 1)) =~= s@.subrange(q + 1, r as int));
                        assert(rest.skip((q - (p + 1)) + 1) =~= rest_day);
                    }
                    if r < n {
                        let dw = crate::text::copy_range(s, q + 1, r);
                        if dw.len() <= 5 {
                            if bytes_len_of(&dw) <= 5 {
                                match parse_trimmed_vec(&dw) {
                                    Some(v) => {
                                        day_v = v;
                                    },
                                    None => {
                                    },
                                }
                            }
                        } else {
                            proof {
                                lemma_bytes_len_ge_len(dw@);
                            }
                        }
                    }
                    proof {
                        assert(day_v as int == day_of(rest_day));
                    }
                    let exact: i128 = (year_v as i128 - 1970) * 31536000 + (month_v as i128)
                        * 2592000 + (day_v as i128) * 86400;
                    let out: u64 = if exact >= 0 {
                        exact as u64
                    } else {
                        (exact + 0x10000000000000000) as u64
                    };
                    proof {
                        let yv = year_v as int;
                        let mvv = month_v as int;
                        let dvv = day_v as int;
                        let e = (yv - 1970) * 31536000 + mvv * 2592000 + dvv * 86400;
                        assert(-0x10000000000000000 < e < 0x10000000000000000);
                        if e >= 0 {
                            vstd::arithmetic::div_mod::lemma_small_mod(
                                e as nat,
                                0x10000000000000000,
                            );
                        } else {
                            vstd::arithmetic::div_mod::lemma_mod_add_multiples_vanish(
                                e,
                                0x10000000000000000,
                            );
                            vstd::arithmetic::div_mod::lemma_small_mod(
                                (e + 0x10000000000000000) as nat,
                                0x10000000000000000,
                            );
                        }
                        assert(out == approx_ts(yv, mvv, dvv));
                        assert(ets_from(s@, p as int) == out);
                    }
                    return out;
                }
            }
        }
        proof {
            assert(ets_from(s@, p as int) == ets_from(s@, p + 1));
        }
        p = p + 1;
    }
    DEFAULT_TS
}

/// `pow10` grows with its exponent.
proof fn lemma_pow10_mono(a: int, b: int)
    requires
        a <= b,
    ensures
        pow10(a) <= pow10(b),
    decreases b - a,
{
    if a < b {
        lemma_pow10_mono(a, b - 1);
        lemma_pow10_pos(b - 1);
        if b > 0 {
            assert(pow10(b) == 10 * pow10(b - 1));
        }
    }
}

/// `pow10` is positive.
proof fn lemma_pow10_pos(k: int)
    ensures
        pow10(k) >= 1,
    decreases k,
{
    if k > 0 {
        lemma_pow10_pos(k - 1);
    }
}

/// A character sequence has at least as many bytes as characters.
proof fn lemma_bytes_len_ge_len(s: Seq<char>)
    ensures
        bytes_len(s) >= s.len(),
    decreases s.len(),
{
    if s.len() > 0 {
        lemma_bytes_len_ge_len(s.drop_last());
        lemma_encode_utf8_push(s.drop_last(), s.last());
        assert(s =~= s.drop_last().push(s.last()));
    }
}

/// Searching from `from` in the whole string matches searching from the
/// start of the suffix.
proof fn lemma_find_char_skip(s: Seq<char>, c: char, from: int)
    requires
        0 <= from <= s.len(),
    ensures
        forall|i: int|
            from <= i <= s.len() ==> #[trigger] find_char_from(s, c, i) - from == find_char_from(
                s.skip(from),
                c,
                i - from,
            ),
    decreases s.len() - from,
{
    assert forall|i: int|
        from <= i <= s.len() implies #[trigger] find_char_from(s, c, i) - from == find_char_from(
        s.skip(from),
        c,
        i - from,
    ) by {
        lemma_find_char_skip_one(s, c, from, i);
    }
}

/// One instance of the suffix-search correspondence.
proof fn lemma_find_char_skip_one(s: Seq<char>, c: char, from: int, i: int)
    requires
        0 <= from <= i <= s.len(),
    ensures
        find_char_from(s, c, i) - from == find_char_from(s.skip(from), c, i - from),
    decreases s.len() - i,
{
    if i < s.len() {
        assert(s.skip(from)[i - from] == s[i]);
        if s[i] != c {
            lemma_find_char_skip_one(s, c, from, i + 1);
        }
    }
}

} // verus!
