//! Verified character-level text utilities: extracting characters from a
//! string, equality, substring search, whitespace splitting and UTF-8
//! encoding. These are the building blocks of the fingerprint codec.
use vstd::prelude::*;
use vstd::utf8::char_is_scalar;
use vstd::utf8::encode_scalar;
use vstd::utf8::encode_utf8;

verus! {

/// The Unicode `White_Space` characters, the set that whitespace
/// tokenization splits on.
pub open spec fn is_ws(c: char) -> bool {
    let v = c as u32;
    ||| (0x09 <= v <= 0x0D)
    ||| v == 0x20
    ||| v == 0x85
    ||| v == 0xA0
    ||| v == 0x1680
    ||| (0x2000 <= v <= 0x200A)
    ||| v == 0x2028
    ||| v == 0x2029
    ||| v == 0x202F
    ||| v == 0x205F
    ||| v == 0x3000
}

/// Decides `is_ws`.
pub fn is_ws_char(c: char) -> (r: bool)
    ensures
        r == is_ws(c),
{
    let v = c as u32;
    (0x09 <= v && v <= 0x0D) || v == 0x20 || v == 0x85 || v == 0xA0 || v == 0x1680 || (0x2000 <= v
        && v <= 0x200A) || v == 0x2028 || v == 0x2029 || v == 0x202F || v == 0x205F || v == 0x3000
}

/// The characters of a string, in order.
pub fn chars_of(s: &str) -> (r: Vec<char>)
    ensures
        r@ == s@,
{
    let n = s.unicode_len();
    let mut r: Vec<char> = Vec::new();
    let mut i: usize = 0;
    while i < n
        invariant
            n == s@.len(),
            i <= n,
            r@ == s@.take(i as int),
        decreases n - i,
    {
        r.push(s.get_char(i));
        i = i + 1;
    }
    proof {
        assert(r@ =~= s@);
    }
    r
}

/// String equality at the character level.
pub fn str_eq(a: &str, b: &str) -> (r: bool)
    ensures
        r == (a@ == b@),
{
    let na = a.unicode_len();
    let nb = b.unicode_len();
    if na != nb {
        proof {
            assert(a@ != b@);
        }
        return false;
    }
    let mut i: usize = 0;
    while i < na
        invariant
            na == a@.len(),
            na == b@.len(),
            i <= na,
            forall|j: int| 0 <= j < i ==> a@[j] == b@[j],
        decreases na - i,
    {
        if a.get_char(i) != b.get_char(i) {
            return false;
        }
        i = i + 1;
    }
    proof {
        assert(a@ =~= b@);
    }
    true
}

/// True when `nd` occurs as a contiguous subsequence of `hay`.
pub open spec fn has_sub(hay: Seq<char>, nd: Seq<char>) -> bool {
    exists|i: int| 0 <= i && i + nd.len() <= hay.len() && #[trigger] hay.subrange(i, i + nd.len())
        == nd
}

/// Checks whether `hay` matches `nd` starting at `start`.
fn matches_at(hay: &Vec<char>, nd: &Vec<char>, start: usize) -> (r: bool)
    requires
        start + nd@.len() <= hay@.len(),
    ensures
        r == (hay@.subrange(start as int, start + nd@.len()) == nd@),
{
    let hl = hay.len();
    let m = nd.len();
    let mut k: usize = 0;
    while k < m
        invariant
            m == nd@.len(),
            hl == hay@.len(),
            start + m <= hl,
            k <= m,
            forall|j: int| 0 <= j < k ==> hay@[start + j] == nd@[j],
        decreases m - k,
    {
        if hay[start + k] != nd[k] {
            proof {
                assert(hay@.subrange(start as int, start + nd@.len())[k as int] != nd@[k as int]);
            }
            return false;
        }
        k = k + 1;
    }
    proof {
        assert(hay@.subrange(start as int, start + nd@.len()) =~= nd@);
    }
    true
}

/// Substring search: decides `has_sub(hay@, nd@)`.
pub fn contains_chars(hay: &Vec<char>, nd: &Vec<char>) -> (r: bool)
    ensures
        r == has_sub(hay@, nd@),
{
    let n = hay.len();
    let m = nd.len();
    if m > n {
        return false;
    }
    if m == 0 {
        proof {
            assert(hay@.subrange(0, 0 + nd@.len() as int) =~= nd@);
        }
        return true;
    }
    let mut start: usize = 0;
    while start <= n - m
        invariant
            n == hay@.len(),
            m == nd@.len(),
            0 < m <= n,
            start <= n - m + 1,
            forall|i: int|
                0 <= i < start ==> #[trigger] hay@.subrange(i, i + nd@.len()) != nd@,
        decreases n - start,
    {
        if matches_at(hay, nd, start) {
            return true;
        }
        start = start + 1;
    }
    false
}

/// Substring search against a literal pattern.
pub fn contains_str(hay: &Vec<char>, nd: &str) -> (r: bool)
    ensures
        r == has_sub(hay@, nd@),
{
    let ndv = chars_of(nd);
    contains_chars(hay, &ndv)
}

/// Whitespace splitting, carried out from position `i` with the pending
/// token `cur`: the maximal runs of non-whitespace characters of
/// `cur + s[i..]`, assuming no whitespace stands in `cur`.
pub open spec fn split_ws_from(s: Seq<char>, i: int, cur: Seq<char>) -> Seq<Seq<char>>
    decreases s.len() - i,
{
    if i < 0 || i >= s.len() {
        if cur.len() > 0 {
            seq![cur]
        } else {
            Seq::empty()
        }
    } else if is_ws(s[i]) {
        if cur.len() > 0 {
            seq![cur] + split_ws_from(s, i + 1, Seq::empty())
        } else {
            split_ws_from(s, i + 1, Seq::empty())
        }
    } else {
        split_ws_from(s, i + 1, cur.push(s[i]))
    }
}

/// The whitespace-separated tokens of `s`: maximal nonempty runs of
/// non-whitespace characters, in order.
pub open spec fn split_ws(s: Seq<char>) -> Seq<Seq<char>> {
    split_ws_from(s, 0, Seq::empty())
}

/// The views of a vector of character vectors.
pub open spec fn views_of(toks: Seq<Vec<char>>) -> Seq<Seq<char>> {
    toks.map_values(|t: Vec<char>| t@)
}

/// Splits `s` into its whitespace-separated tokens.
pub fn tokens_of(s: &Vec<char>) -> (r: Vec<Vec<char>>)
    ensures
        views_of(r@) == split_ws(s@),
{
    let n = s.len();
    let mut toks: Vec<Vec<char>> = Vec::new();
    let mut cur: Vec<char> = Vec::new();
    let mut i: usize = 0;
    proof {
        assert(views_of(toks@) + split_ws_from(s@, 0, cur@) =~= split_ws(s@));
    }
    while i < n
        invariant
            n == s@.len(),
            i <= n,
            split_ws(s@) == views_of(toks@) + split_ws_from(s@, i as int, cur@),
        decreases n - i,
    {
        let ghost prev_toks = toks@;
        let ghost prev_cur = cur@;
        let c = s[i];
        proof {
            assert(s@[i as int] == c);
        }
        if is_ws_char(c) {
            if cur.len() > 0 {
                let done = cur;
                cur = Vec::new();
                toks.push(done);
                proof {
                    assert(split_ws_from(s@, i as int, prev_cur) == seq![prev_cur]
                        + split_ws_from(s@, i + 1, Seq::empty()));
                    assert(views_of(toks@) =~= views_of(prev_toks) + seq![prev_cur]);
                    assert(views_of(toks@) + split_ws_from(s@, i + 1, cur@) =~= views_of(
                        prev_toks,
                    ) + (seq![prev_cur] + split_ws_from(s@, i + 1, Seq::empty())));
                }
            } else {
                proof {
                    assert(prev_cur =~= Seq::<char>::empty());
                    assert(split_ws_from(s@, i as int, prev_cur) == split_ws_from(
                        s@,
                        i + 1,
                        Seq::empty(),
                    ));
                }
            }
        } else {
            cur.push(c);
            proof {
                assert(split_ws_from(s@, i as int, prev_cur) == split_ws_from(
                    s@,
                    i + 1,
                    prev_cur.push(c),
                ));
                assert(cur@ == prev_cur.push(c));
            }
        }
        i = i + 1;
    }
    let ghost prev_toks = toks@;
    let ghost prev_cur = cur@;
    if cur.len() > 0 {
        let done = cur;
        toks.push(done);
        proof {
            assert(split_ws_from(s@, n as int, prev_cur) == seq![prev_cur]);
            assert(views_of(toks@) =~= views_of(prev_toks) + seq![prev_cur]);
        }
    } else {
        proof {
            assert(split_ws_from(s@, n as int, prev_cur) == Seq::<Seq<char>>::empty());
            assert(views_of(toks@) =~= views_of(prev_toks) + Seq::<Seq<char>>::empty());
        }
    }
    toks
}

/// Appends the UTF-8 encoding of `c` to `out`.
pub fn encode_char_push(c: char, out: &mut Vec<u8>)
    ensures
        final (out)@ == old(out)@ + encode_scalar(c as u32),
{
    proof {
        broadcast use char_is_scalar;

    }
    let v = c as u32;
    if v <= 0x7F {
        out.push((v & 0x7F) as u8);
        proof {
            assert(out@ =~= old(out)@ + encode_scalar(c as u32));
        }
    } else if v <= 0x7FF {
        out.push(0xC0 | (((v >> 6) & 0x1F) as u8));
        out.push(0x80 | ((v & 0x3F) as u8));
        proof {
            assert(out@ =~= old(out)@ + encode_scalar(c as u32));
        }
    } else if v <= 0xFFFF {
        out.push(0xE0 | (((v >> 12) & 0x0F) as u8));
        out.push(0x80 | (((v >> 6) & 0x3F) as u8));
        out.push(0x80 | ((v & 0x3F) as u8));
        proof {
            assert(out@ =~= old(out)@ + encode_scalar(c as u32));
        }
    } else {
        out.push(0xF0 | (((v >> 18) & 0x7) as u8));
        out.push(0x80 | (((v >> 12) & 0x3F) as u8));
        out.push(0x80 | (((v >> 6) & 0x3F) as u8));
        out.push(0x80 | ((v & 0x3F) as u8));
        proof {
            assert(out@ =~= old(out)@ + encode_scalar(c as u32));
        }
    }
}

/// `encode_utf8` distributes over appending one character.
pub proof fn lemma_encode_utf8_push(s: Seq<char>, c: char)
    ensures
        encode_utf8(s.push(c)) == encode_utf8(s) + encode_scalar(c as u32),
    decreases s.len(),
{
    if s.len() == 0 {
        assert(s.push(c)[0] == c);
        assert(s.push(c).drop_first() =~= s);
        assert(encode_utf8(s.push(c)) =~= encode_utf8(s) + encode_scalar(c as u32));
    } else {
        assert(s.push(c).drop_first() =~= s.drop_first().push(c));
        lemma_encode_utf8_push(s.drop_first(), c);
        assert(s.push(c)[0] == s[0]);
        assert(encode_utf8(s.push(c)) =~= encode_utf8(s) + encode_scalar(c as u32));
    }
}

/// The UTF-8 encoding of a character sequence.
pub fn encode_chars(s: &Vec<char>) -> (r: Vec<u8>)
    ensures
        r@ == encode_utf8(s@),
{
    let n = s.len();
    let mut r: Vec<u8> = Vec::new();
    let mut i: usize = 0;
    while i < n
        invariant
            n == s@.len(),
            i <= n,
            r@ == encode_utf8(s@.take(i as int)),
        decreases n - i,
    {
        encode_char_push(s[i], &mut r);
        proof {
            assert(s@.take(i + 1).drop_last() =~= s@.take(i as int));
            assert(s@.take(i + 1) =~= s@.take(i as int).push(s@[i as int]));
            lemma_encode_utf8_push(s@.take(i as int), s@[i as int]);
        }
        i = i + 1;
    }
    proof {
        assert(s@.take(n as int) =~= s@);
    }
    r
}

/// The byte width of the UTF-8 encoding of one character.
pub fn char_utf8_len(c: char) -> (r: usize)
    ensures
        r == encode_scalar(c as u32).len(),
        1 <= r <= 4,
{
    proof {
        broadcast use char_is_scalar;

    }
    let v = c as u32;
    if v <= 0x7F {
        1
    } else if v <= 0x7FF {
        2
    } else if v <= 0xFFFF {
        3
    } else {
        4
    }
}


/// A copy of the character range `s[a..b]`.
pub fn copy_range(s: &Vec<char>, a: usize, b: usize) -> (r: Vec<char>)
    requires
        a <= b <= s@.len(),
    ensures
        r@ == s@.subrange(a as int, b as int),
{
    let mut r: Vec<char> = Vec::new();
    let mut i: usize = a;
    while i < b
        invariant
            a <= i <= b <= s@.len(),
            r@ == s@.subrange(a as int, i as int),
        decreases b - i,
    {
        r.push(s[i]);
        proof {
            assert(r@ =~= s@.subrange(a as int, i + 1));
        }
        i = i + 1;
    }
    r
}

} // verus!
