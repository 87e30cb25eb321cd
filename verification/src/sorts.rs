//! Verified stable insertion sorts for the orders the engine needs:
//! scored pairs by score descending, chaos candidates by distance
//! ascending, events by time then id ascending, and keywords by byte
//! length descending.
use vstd::prelude::*;
use vstd::multiset::Multiset;
use vstd::utf8::encode_utf8;

verus! {

/// Descending order by the second component between all pairs.
pub open spec fn pairs_sorted_desc(s: Seq<(i64, i64)>) -> bool {
    forall|a: int, b: int| 0 <= a < b < s.len() ==> s[a].1 >= s[b].1
}

/// The stable insertion position for score `k`: the first index at or
/// after `i` whose score is strictly below `k`.
pub open spec fn score_pos_from(out: Seq<(i64, i64)>, k: i64, i: int) -> int
    decreases out.len() - i,
{
    if i < 0 || i >= out.len() {
        out.len() as int
    } else if out[i].1 < k {
        i
    } else {
        score_pos_from(out, k, i + 1)
    }
}

/// One stable insertion step of the score-descending sort.
pub open spec fn score_sorted_insert(out: Seq<(i64, i64)>, x: (i64, i64)) -> Seq<(i64, i64)> {
    out.insert(score_pos_from(out, x.1, 0), x)
}

/// The stable sort of scored pairs by score, descending: pairs of equal
/// score keep their order.
pub open spec fn sort_pairs_spec(s: Seq<(i64, i64)>) -> Seq<(i64, i64)>
    decreases s.len(),
{
    if s.len() == 0 {
        Seq::empty()
    } else {
        score_sorted_insert(sort_pairs_spec(s.drop_last()), s.last())
    }
}

/// The insertion position lies in range.
pub proof fn lemma_score_pos_range(out: Seq<(i64, i64)>, k: i64, i: int)
    requires
        0 <= i <= out.len(),
    ensures
        i <= score_pos_from(out, k, i) <= out.len(),
    decreases out.len() - i,
{
    if i < out.len() && !(out[i].1 < k) {
        lemma_score_pos_range(out, k, i + 1);
    }
}

/// Sorts scored pairs by score, descending, as `sort_pairs_spec` states:
/// pairs of equal score keep their order.
pub fn sort_pairs_desc(v: &mut Vec<(i64, i64)>)
    ensures
        final (v)@ == sort_pairs_spec(old(v)@),
        final (v)@.len() == old(v)@.len(),
        pairs_sorted_desc(final (v)@),
        final (v)@.to_multiset() == old(v)@.to_multiset(),
{
    let n = v.len();
    let mut out: Vec<(i64, i64)> = Vec::new();
    let mut i: usize = 0;
    proof {
        assert(v@.take(0) =~= Seq::<(i64, i64)>::empty());
        assert(out@.to_multiset() =~= v@.take(0).to_multiset());
    }
    while i < n
        invariant
            n == v@.len(),
            i <= n,
            out@.len() == i,
            pairs_sorted_desc(out@),
            out@ == sort_pairs_spec(v@.take(i as int)),
            out@.to_multiset() == v@.take(i as int).to_multiset(),
        decreases n - i,
    {
        let x = v[i];
        let k = x.1;
        let ghost gout = out@;
        let mut pos: usize = 0;
        while pos < out.len() && out[pos].1 >= k
            invariant
                pos <= out@.len(),
                gout == out@,
                forall|a: int| 0 <= a < pos ==> out@[a].1 >= k,
                score_pos_from(gout, k, 0) == score_pos_from(gout, k, pos as int),
            decreases out@.len() - pos,
        {
            pos = pos + 1;
        }
        proof {
            assert(score_pos_from(gout, k, 0) == pos);
            assert forall|b: int| pos <= b < out@.len() implies out@[b].1 < k by {
                if b > pos {
                    assert(out@[pos as int].1 >= out@[b].1);
                }
            }
        }
        let ghost prev = out@;
        out.insert(pos, x);
        proof {
            assert(out@ == prev.insert(pos as int, x));
            assert(out@ == score_sorted_insert(prev, x));
            vstd::seq_lib::to_multiset_insert::<(i64, i64)>(prev, pos as int, x);
            vstd::seq_lib::to_multiset_build::<(i64, i64)>(v@.take(i as int), x);
            assert(v@.take(i + 1).drop_last() =~= v@.take(i as int));
            assert(v@.take(i + 1) =~= v@.take(i as int).push(x));
            assert forall|a: int, b: int| 0 <= a < b < out@.len() implies out@[a].1 >= out@[b].1
            by {
                if b < pos {
                } else if a == pos || b == pos {
                } else if a < pos {
                } else {
                }
            }
        }
        i = i + 1;
    }
    proof {
        assert(v@.take(n as int) =~= v@);
    }
    *v = out;
}

/// Ascending order by the second component between all pairs.
pub open spec fn cands_sorted_asc(s: Seq<(usize, u32)>) -> bool {
    forall|a: int, b: int| 0 <= a < b < s.len() ==> s[a].1 <= s[b].1
}

/// The stable insertion position for distance `k`: the first index at or
/// after `i` whose distance is strictly above `k`.
pub open spec fn cand_pos_from(out: Seq<(usize, u32)>, k: u32, i: int) -> int
    decreases out.len() - i,
{
    if i < 0 || i >= out.len() {
        out.len() as int
    } else if out[i].1 > k {
        i
    } else {
        cand_pos_from(out, k, i + 1)
    }
}

/// One stable insertion step of the distance-ascending sort.
pub open spec fn cand_sorted_insert(out: Seq<(usize, u32)>, x: (usize, u32)) -> Seq<
    (usize, u32),
> {
    out.insert(cand_pos_from(out, x.1, 0), x)
}

/// The stable sort of candidates by distance, ascending: candidates of
/// equal distance keep their order.
pub open spec fn sort_cands_spec(s: Seq<(usize, u32)>) -> Seq<(usize, u32)>
    decreases s.len(),
{
    if s.len() == 0 {
        Seq::empty()
    } else {
        cand_sorted_insert(sort_cands_spec(s.drop_last()), s.last())
    }
}

/// The insertion position lies in range.
pub proof fn lemma_cand_pos_range(out: Seq<(usize, u32)>, k: u32, i: int)
    requires
        0 <= i <= out.len(),
    ensures
        i <= cand_pos_from(out, k, i) <= out.len(),
    decreases out.len() - i,
{
    if i < out.len() && !(out[i].1 > k) {
        lemma_cand_pos_range(out, k, i + 1);
    }
}

/// Sorts candidates by distance, ascending, as `sort_cands_spec` states:
/// candidates of equal distance keep their order.
pub fn sort_cands_asc(v: &mut Vec<(usize, u32)>)
    ensures
        final (v)@ == sort_cands_spec(old(v)@),
        final (v)@.len() == old(v)@.len(),
        cands_sorted_asc(final (v)@),
{
    let n = v.len();
    let mut out: Vec<(usize, u32)> = Vec::new();
    let mut i: usize = 0;
    proof {
        assert(v@.take(0) =~= Seq::<(usize, u32)>::empty());
    }
    while i < n
        invariant
            n == v@.len(),
            i <= n,
            out@.len() == i,
            cands_sorted_asc(out@),
            out@ == sort_cands_spec(v@.take(i as int)),
        decreases n - i,
    {
        let x = v[i];
        let k = x.1;
        let ghost gout = out@;
        let mut pos: usize = 0;
        while pos < out.len() && out[pos].1 <= k
            invariant
                pos <= out@.len(),
                gout == out@,
                forall|a: int| 0 <= a < pos ==> out@[a].1 <= k,
                cand_pos_from(gout, k, 0) == cand_pos_from(gout, k, pos as int),
            decreases out@.len() - pos,
        {
            pos = pos + 1;
        }
        proof {
            assert(cand_pos_from(gout, k, 0) == pos);
            assert forall|b: int| pos <= b < out@.len() implies out@[b].1 > k by {
                if b > pos {
                    assert(out@[pos as int].1 <= out@[b].1);
                }
            }
        }
        let ghost prev = out@;
        out.insert(pos, x);
        proof {
            assert(out@ == prev.insert(pos as int, x));
            assert(out@ == cand_sorted_insert(prev, x));
            assert(v@.take(i + 1).drop_last() =~= v@.take(i as int));
            assert(v@.take(i + 1) =~= v@.take(i as int).push(x));
            assert forall|a: int, b: int| 0 <= a < b < out@.len() implies out@[a].1 <= out@[b].1
            by {
                if b < pos {
                } else if a == pos || b == pos {
                } else if a < pos {
                } else {
                }
            }
        }
        i = i + 1;
    }
    proof {
        assert(v@.take(n as int) =~= v@);
    }
    *v = out;
}

/// Lexicographic ascending order by timestamp, then id.
pub open spec fn event_le(a: (i64, u64), b: (i64, u64)) -> bool {
    a.1 < b.1 || (a.1 == b.1 && a.0 <= b.0)
}

/// Ascending order by (timestamp, id) between all pairs.
pub open spec fn events_sorted_asc(s: Seq<(i64, u64)>) -> bool {
    forall|a: int, b: int| 0 <= a < b < s.len() ==> event_le(s[a], s[b])
}

/// Sorts events by timestamp, ties by id, ascending. The result is a
/// permutation of the input.
pub fn sort_events_asc(v: &mut Vec<(i64, u64)>)
    ensures
        events_sorted_asc(final (v)@),
        final (v)@.to_multiset() == old(v)@.to_multiset(),
        final (v)@.len() == old(v)@.len(),
{
    let n = v.len();
    let mut out: Vec<(i64, u64)> = Vec::new();
    let mut i: usize = 0;
    proof {
        assert(v@.take(0) =~= Seq::<(i64, u64)>::empty());
        assert(out@.to_multiset() =~= v@.take(0).to_multiset());
    }
    while i < n
        invariant
            n == v@.len(),
            i <= n,
            out@.len() == i,
            events_sorted_asc(out@),
            out@.to_multiset() == v@.take(i as int).to_multiset(),
        decreases n - i,
    {
        let x = v[i];
        let mut pos: usize = 0;
        while pos < out.len() && (out[pos].1 < x.1 || (out[pos].1 == x.1 && out[pos].0 <= x.0))
            invariant
                pos <= out@.len(),
                forall|a: int| 0 <= a < pos ==> event_le(out@[a], x),
            decreases out@.len() - pos,
        {
            pos = pos + 1;
        }
        proof {
            assert forall|b: int| pos <= b < out@.len() implies event_le(x, out@[b]) by {
                assert(event_le(x, out@[pos as int]));
                if b > pos {
                    assert(event_le(out@[pos as int], out@[b]));
                }
            }
        }
        let ghost prev = out@;
        out.insert(pos, x);
        proof {
            assert(out@ == prev.insert(pos as int, x));
            vstd::seq_lib::to_multiset_insert::<(i64, u64)>(prev, pos as int, x);
            vstd::seq_lib::to_multiset_build::<(i64, u64)>(v@.take(i as int), x);
            assert(v@.take(i + 1).drop_last() =~= v@.take(i as int));
            assert(v@.take(i + 1) =~= v@.take(i as int).push(x));
            assert forall|a: int, b: int|
                0 <= a < b < out@.len() implies event_le(out@[a], out@[b]) by {
                if b < pos {
                } else if a == pos || b == pos {
                } else if a < pos {
                } else {
                }
            }
        }
        i = i + 1;
    }
    proof {
        assert(v@.take(n as int) =~= v@);
    }
    *v = out;
}

/// The UTF-8 byte length of a string.
pub open spec fn byte_len(s: Seq<char>) -> int {
    encode_utf8(s).len() as int
}

/// Descending order by byte length between all pairs.
pub open spec fn views_sorted_len_desc(s: Seq<Seq<char>>) -> bool {
    forall|a: int, b: int| 0 <= a < b < s.len() ==> byte_len(s[a]) >= byte_len(s[b])
}

/// The stable insertion position for a string of byte length `k`: the
/// first index at or after `i` whose string is strictly shorter than `k`.
pub open spec fn len_pos_from(out: Seq<Seq<char>>, k: int, i: int) -> int
    decreases out.len() - i,
{
    if i < 0 || i >= out.len() {
        out.len() as int
    } else if byte_len(out[i]) < k {
        i
    } else {
        len_pos_from(out, k, i + 1)
    }
}

/// One stable insertion step of the length-descending sort.
pub open spec fn len_sorted_insert(out: Seq<Seq<char>>, x: Seq<char>) -> Seq<Seq<char>> {
    out.insert(len_pos_from(out, byte_len(x), 0), x)
}

/// The stable sort of a string sequence by byte length, descending:
/// strings of equal length keep their order.
pub open spec fn sort_len_desc(s: Seq<Seq<char>>) -> Seq<Seq<char>>
    decreases s.len(),
{
    if s.len() == 0 {
        Seq::empty()
    } else {
        len_sorted_insert(sort_len_desc(s.drop_last()), s.last())
    }
}

/// The views of a vector of strings.
pub open spec fn string_views(v: Seq<String>) -> Seq<Seq<char>> {
    v.map_values(|s: String| s@)
}

/// The insertion position lies in range and splits the output: longer or
/// equal strings before it, strictly shorter ones from it on.
pub proof fn lemma_len_pos_range(out: Seq<Seq<char>>, k: int, i: int)
    requires
        0 <= i <= out.len(),
    ensures
        i <= len_pos_from(out, k, i) <= out.len(),
    decreases out.len() - i,
{
    if i < out.len() && !(byte_len(out[i]) < k) {
        lemma_len_pos_range(out, k, i + 1);
    }
}

/// Sorts strings by byte length, descending, as `sort_len_desc` states:
/// strings of equal length keep their order.
pub fn sort_strings_len_desc(v: &mut Vec<String>)
    ensures
        string_views(final (v)@) == sort_len_desc(string_views(old(v)@)),
        final (v)@.len() == old(v)@.len(),
        views_sorted_len_desc(string_views(final (v)@)),
{
    let n = v.len();
    let mut out: Vec<String> = Vec::new();
    let mut lens: Vec<usize> = Vec::new();
    let mut i: usize = 0;
    proof {
        assert(string_views(v@).subrange(0, 0) =~= Seq::<Seq<char>>::empty());
        assert(string_views(out@) =~= sort_len_desc(string_views(v@).subrange(0, 0)));
    }
    while i < n
        invariant
            n == v@.len(),
            i <= n,
            out@.len() == i,
            lens@.len() == i,
            forall|j: int| 0 <= j < i ==> lens@[j] == byte_len(string_views(out@)[j]),
            views_sorted_len_desc(string_views(out@)),
            string_views(out@) == sort_len_desc(string_views(v@).subrange(0, i as int)),
        decreases n - i,
    {
        let x = v[i].clone();
        let xc = crate::text::chars_of(x.as_str());
        let xb = crate::text::encode_chars(&xc);
        let k = xb.len();
        proof {
            assert(x@ == string_views(v@)[i as int]);
            assert(k == byte_len(x@));
        }
        let ghost gout = string_views(out@);
        let mut pos: usize = 0;
        while pos < lens.len() && lens[pos] >= k
            invariant
                lens@.len() == out@.len(),
                pos <= out@.len(),
                k == byte_len(x@),
                forall|j: int| 0 <= j < out@.len() ==> lens@[j] == byte_len(string_views(out@)[j]),
                gout == string_views(out@),
                forall|a: int| 0 <= a < pos ==> byte_len(gout[a]) >= k,
                len_pos_from(gout, k as int, 0) == len_pos_from(gout, k as int, pos as int),
            decreases lens@.len() - pos,
        {
            proof {
                assert(!(byte_len(gout[pos as int]) < k));
            }
            pos = pos + 1;
        }
        proof {
            if pos < out@.len() {
                assert(byte_len(gout[pos as int]) < k);
            }
            assert(len_pos_from(gout, k as int, 0) == pos);
            lemma_len_pos_range(gout, k as int, 0);
            assert(forall|a: int| 0 <= a < pos ==> byte_len(gout[a]) >= k);
            assert forall|b: int| pos <= b < out@.len() implies byte_len(gout[b]) < k by {
                if b > pos {
                    assert(byte_len(gout[pos as int]) >= byte_len(gout[b]));
                }
            }
        }
        let ghost prev = out@;
        out.insert(pos, x);
        lens.insert(pos, k);
        proof {
            assert(string_views(out@) =~= string_views(prev).insert(pos as int, x@));
            assert(string_views(out@) == len_sorted_insert(gout, x@));
            let svi = string_views(v@).subrange(0, i + 1);
            assert(svi.drop_last() =~= string_views(v@).subrange(0, i as int));
            assert(svi.last() == x@);
            assert(string_views(out@) == sort_len_desc(svi));
            assert forall|a: int, b: int|
                0 <= a < b < string_views(out@).len() implies byte_len(string_views(out@)[a])
                >= byte_len(string_views(out@)[b]) by {
                if b < pos {
                } else if a == pos || b == pos {
                } else if a < pos {
                } else {
                }
            }
            assert forall|j: int| 0 <= j < out@.len() implies lens@[j] == byte_len(
                string_views(out@)[j],
            ) by {
                if j < pos {
                } else if j == pos {
                } else {
                }
            }
        }
        i = i + 1;
    }
    proof {
        assert(string_views(v@).subrange(0, n as int) =~= string_views(v@));
    }
    *v = out;
}

} // verus!
