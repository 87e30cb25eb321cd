//! The fingerprint codec: a 64-bit partitioned multimodal fingerprint built
//! from a 32-bit semantic hash, a 16-bit temporal hash, an 8-bit emotion
//! bitmap and an 8-bit entity type, together with query-side inference of
//! the temporal, affective and type fields.
use vstd::prelude::*;
use vstd::utf8::encode_scalar;
use vstd::utf8::encode_utf8;

use crate::extern_specs::lower_of;
use crate::extern_specs::lowercase;
use crate::extern_specs::xxh64;
use crate::extern_specs::xxh64_of;
use crate::text::chars_of;
use crate::text::contains_str;
use crate::text::encode_char_push;
use crate::text::encode_chars;
use crate::text::has_sub;
use crate::text::split_ws;
use crate::text::tokens_of;
use crate::text::views_of;

verus! {

/// Mask selecting the 32-bit semantic field of a fingerprint.
pub const MASK_SEMANTIC: u64 = 0xFFFFFFFF;
/// Mask selecting the 16-bit temporal field of a fingerprint.
pub const MASK_TEMPORAL: u64 = 0xFFFF00000000;
/// Mask selecting the 8-bit affective field of a fingerprint.
pub const MASK_AFFECTIVE: u64 = 0x00FF000000000000;
/// Mask selecting the 8-bit entity-type field of a fingerprint.
pub const MASK_TYPE: u64 = 0xFF00000000000000;

/// Entity type: unknown.
pub const TYPE_UNKNOWN: u8 = 0x00;
/// Entity type: person or identity.
pub const TYPE_PERSON: u8 = 0x01;
/// Entity type: technology or concept.
pub const TYPE_TECH: u8 = 0x02;
/// Entity type: event or action.
pub const TYPE_EVENT: u8 = 0x03;
/// Entity type: location.
pub const TYPE_LOCATION: u8 = 0x04;
/// Entity type: object.
pub const TYPE_OBJECT: u8 = 0x05;
/// Entity type: values.
pub const TYPE_VALUES: u8 = 0x06;

/// Edge type: directed representation, "seeing B evokes A".
pub const EDGE_REPRESENTATION: u8 = 0;
/// Edge type: bidirectional equality, lossless energy transfer.
pub const EDGE_EQUALITY: u8 = 1;
/// Edge type: bidirectional inhibition, negative energy transfer.
pub const EDGE_INHIBITION: u8 = 255;

/// Emotion bit: joy.
pub const EMOTION_JOY: u8 = 1;
/// Emotion bit: shyness.
pub const EMOTION_SHY: u8 = 2;
/// Emotion bit: fear.
pub const EMOTION_FEAR: u8 = 4;
/// Emotion bit: surprise.
pub const EMOTION_SURPRISE: u8 = 8;
/// Emotion bit: sadness.
pub const EMOTION_SADNESS: u8 = 16;
/// Emotion bit: disgust.
pub const EMOTION_DISGUST: u8 = 32;
/// Emotion bit: anger.
pub const EMOTION_ANGER: u8 = 64;
/// Emotion bit: anticipation.
pub const EMOTION_ANTICIPATION: u8 = 128;

/// Packs the four fingerprint fields into one 64-bit word: bits [0,32)
/// semantic, [32,48) temporal, [48,56) emotion, [56,64) entity type.
pub open spec fn pack64(semantic: u32, temporal: u16, emotion: u8, type_val: u8) -> u64 {
    (semantic as u64) | ((temporal as u64) << 32) | ((emotion as u64) << 48) | ((type_val
        as u64) << 56)
}

/// The XXHash64 digest of one hashed piece (a token or a single character):
/// its UTF-8 bytes followed by the terminator byte 0xFF, under seed 0.
pub open spec fn piece_hash(p: Seq<char>) -> u64 {
    xxh64_of(0, encode_utf8(p).push(0xFF))
}

/// The vote of bit `i` of hash `h`: +1 when set, -1 when clear.
pub open spec fn bit_vote(h: u64, i: int) -> int {
    if (h >> (i as u64)) & 1 == 1 {
        1
    } else {
        -1
    }
}

/// The signed counter for bit `i` over a sequence of hashed pieces.
pub open spec fn tally(ps: Seq<Seq<char>>, i: int) -> int
    decreases ps.len(),
{
    if ps.len() == 0 {
        0
    } else {
        tally(ps.drop_last(), i) + bit_vote(piece_hash(ps.last()), i)
    }
}

/// The pieces hashed for the semantic fingerprint of a lowercased text:
/// every whitespace-separated token and, additionally, every character.
pub open spec fn pieces_of(s: Seq<char>) -> Seq<Seq<char>> {
    split_ws(s) + s.map_values(|c: char| seq![c])
}

/// The low `k` bits of the semantic fingerprint: bit `i` is set iff the
/// tally for bit `i` is strictly positive.
pub open spec fn text_hash_prefix(ps: Seq<Seq<char>>, k: int) -> u32
    decreases k,
{
    if k <= 0 {
        0
    } else {
        text_hash_prefix(ps, k - 1) | (if tally(ps, k - 1) > 0 {
            1u32 << ((k - 1) as u32)
        } else {
            0
        })
    }
}

/// The 32-bit semantic SimHash of an already-lowercased character sequence.
pub open spec fn raw_text_hash(s: Seq<char>) -> u32 {
    text_hash_prefix(pieces_of(s), 32)
}

/// The 16-bit temporal hash of a nonzero timestamp: the low 16 bits of the
/// XXHash64 digest, under seed 12345, of the timestamp's 8 little-endian
/// bytes.
pub open spec fn u64_le(v: u64) -> Seq<u8> {
    seq![
        (v & 0xFF) as u8,
        ((v >> 8) & 0xFF) as u8,
        ((v >> 16) & 0xFF) as u8,
        ((v >> 24) & 0xFF) as u8,
        ((v >> 32) & 0xFF) as u8,
        ((v >> 40) & 0xFF) as u8,
        ((v >> 48) & 0xFF) as u8,
        ((v >> 56) & 0xFF) as u8,
    ]
}

/// The 16-bit temporal hash of a timestamp.
pub open spec fn temporal_hash_of(ts: u64) -> u16 {
    (xxh64_of(12345, u64_le(ts)) & 0xFFFF) as u16
}

/// The full multimodal fingerprint of a text with the given timestamp,
/// emotion bitmap and entity type. The temporal field is left zero for a
/// zero timestamp.
pub open spec fn fp_multimodal(s: Seq<char>, ts: u64, emotion: u8, type_val: u8) -> u64 {
    pack64(
        raw_text_hash(lower_of(s)),
        if ts > 0 {
            temporal_hash_of(ts)
        } else {
            0
        },
        emotion,
        type_val,
    )
}

/// The number of set bits among the low `n` bits of `x`.
pub open spec fn popcnt(x: u64, n: int) -> int
    decreases n,
{
    if n <= 0 {
        0
    } else {
        popcnt(x, n - 1) + (if (x >> ((n - 1) as u64)) & 1 == 1 {
            1int
        } else {
            0
        })
    }
}

/// The number of set bits of `x`.
pub open spec fn pop64(x: u64) -> int {
    popcnt(x, 64)
}

/// Masking never raises a bit: the popcount of `y & m` is at most that of
/// `m`, bit range by bit range.
pub proof fn lemma_popcnt_and_le(y: u64, m: u64, n: int)
    requires
        0 <= n,
    ensures
        0 <= popcnt(y & m, n),
        popcnt(y & m, n) <= popcnt(m, n),
        popcnt(m, n) <= n,
    decreases n,
{
    if n > 0 {
        lemma_popcnt_and_le(y, m, n - 1);
        let k = (n - 1) as u64;
        assert(((y & m) >> k) & 1 == 1 ==> (m >> k) & 1 == 1) by (bit_vector);
    }
}

/// The similarity of two fingerprints under a mask, in millionths: one
/// minus the fraction of differing masked bits, and zero for an empty mask.
pub open spec fn similarity_micros_of(a: u64, b: u64, mask: u64) -> u32 {
    let pm = pop64(mask);
    let d = pop64((a ^ b) & mask);
    if pm == 0 {
        0
    } else {
        (((pm - d) * 1000000) / pm) as u32
    }
}

/// The grouped namespace of the fingerprint codec.
pub struct SimHash;

impl SimHash {
    /// Counts the set bits of `x`.
    pub fn popcount64(x: u64) -> (c: u32)
        ensures
            c as int == pop64(x),
    {
        let mut c: u32 = 0;
        let mut i: usize = 0;
        while i < 64
            invariant
                i <= 64,
                c as int == popcnt(x, i as int),
                c <= i,
            decreases 64 - i,
        {
            if (x >> (i as u64)) & 1 == 1 {
                c = c + 1;
            }
            i = i + 1;
        }
        c
    }

    /// Weighted masked similarity in millionths of the interval [0, 1]:
    /// `1 - popcount((a ^ b) & mask) / popcount(mask)`, or 0 when the mask
    /// is empty.
    pub fn similarity_weighted(a: u64, b: u64, mask: u64) -> (r: u32)
        ensures
            r == similarity_micros_of(a, b, mask),
            r <= 1000000,
    {
        let pm = Self::popcount64(mask);
        if pm == 0 {
            return 0;
        }
        let d = Self::popcount64((a ^ b) & mask);
        proof {
            lemma_popcnt_and_le(a ^ b, mask, 64);
        }
        let num: u64 = (pm - d) as u64 * 1000000;
        let r: u64 = num / (pm as u64);
        proof {
            vstd::arithmetic::div_mod::lemma_div_is_ordered(
                num as int,
                pm as int * 1000000,
                pm as int,
            );
            vstd::arithmetic::div_mod::lemma_div_by_multiple(1000000, pm as int);
        }
        r as u32
    }

    /// Full-width similarity: every fingerprint field weighted alike.
    pub fn similarity(a: u64, b: u64) -> (r: u32)
        ensures
            r == similarity_micros_of(a, b, 0xFFFFFFFFFFFFFFFF),
            r <= 1000000,
    {
        Self::similarity_weighted(a, b, 0xFFFFFFFFFFFFFFFF)
    }
}

/// Adds the vote of every low bit of the piece hash of `bytes` to the 32
/// counters.
fn update_votes(v: &mut Vec<i128>, h: u64)
    requires
        old(v)@.len() == 32,
        forall|i: int|
            0 <= i < 32 ==> -0x10000000000000000000 < #[trigger] old(v)@[i] < 0x10000000000000000000,
    ensures
        final (v)@.len() == 32,
        forall|i: int| 0 <= i < 32 ==> final (v)@[i] == old(v)@[i] + bit_vote(h, i),
{
    let mut i: usize = 0;
    while i < 32
        invariant
            v@.len() == 32,
            i <= 32,
            forall|j: int| i <= j < 32 ==> v@[j] == old(v)@[j],
            forall|j: int|
                0 <= j < 32 ==> -0x10000000000000000000 < #[trigger] old(v)@[j] < 0x10000000000000000000,
            forall|j: int| 0 <= j < i ==> v@[j] == old(v)@[j] + bit_vote(h, j),
        decreases 32 - i,
    {
        let b = (h >> (i as u64)) & 1;
        let cur = v[i];
        if b == 1 {
            v.set(i, cur + 1);
        } else {
            v.set(i, cur - 1);
        }
        i = i + 1;
    }
}

impl SimHash {
    /// The 32-bit semantic SimHash of `text`: the text is lowercased, every
    /// whitespace token and every character votes on each of 32 bits
    /// through its seeded piece hash, and bit `i` is set iff its tally is
    /// strictly positive.
    pub fn compute_text_hash_32(text: &str) -> (r: u32)
        ensures
            r == raw_text_hash(lower_of(text@)),
    {
        let lower = lowercase(text);
        let cs = chars_of(lower.as_str());
        let toks = tokens_of(&cs);
        let ghost ps = pieces_of(cs@);
        proof {
            assert(views_of(toks@).len() + cs@.map_values(|c: char| seq![c]).len() == ps.len());
        }
        let mut v: Vec<i128> = Vec::new();
        let mut z: usize = 0;
        while z < 32
            invariant
                z <= 32,
                v@.len() == z,
                forall|i: int| 0 <= i < z ==> v@[i] == 0,
            decreases 32 - z,
        {
            v.push(0);
            z = z + 1;
        }
        let nt = toks.len();
        let mut t: usize = 0;
        while t < nt
            invariant
                nt == toks@.len(),
                t <= nt,
                v@.len() == 32,
                views_of(toks@) == split_ws(cs@),
                ps == pieces_of(cs@),
                nt <= ps.len(),
                forall|i: int|
                    0 <= i < 32 ==> v@[i] == tally(ps.take(t as int), i) && -(t as int) <= v@[i]
                        <= t as int,
            decreases nt - t,
        {
            let mut bytes = encode_chars(&toks[t]);
            bytes.push(0xFF);
            let h = xxh64(0, bytes.as_slice());
            proof {
                assert(ps[t as int] == views_of(toks@)[t as int]);
                assert(bytes@ == encode_utf8(toks@[t as int]@).push(0xFF));
            }
            update_votes(&mut v, h);
            proof {
                assert(ps.take(t + 1).drop_last() =~= ps.take(t as int));
                assert(ps.take(t + 1).last() == ps[t as int]);
            }
            t = t + 1;
        }
        let nc = cs.len();
        let mut k: usize = 0;
        while k < nc
            invariant
                nc == cs@.len(),
                nt == toks@.len(),
                k <= nc,
                v@.len() == 32,
                views_of(toks@) == split_ws(cs@),
                ps == pieces_of(cs@),
                ps.len() == nt + nc,
                forall|i: int|
                    0 <= i < 32 ==> v@[i] == tally(ps.take(nt + k), i) && -((nt + k) as int)
                        <= v@[i] <= (nt + k) as int,
            decreases nc - k,
        {
            let mut bytes: Vec<u8> = Vec::new();
            encode_char_push(cs[k], &mut bytes);
            bytes.push(0xFF);
            let h = xxh64(0, bytes.as_slice());
            proof {
                let c0 = cs@[k as int];
                assert(ps[nt + k] == cs@.map_values(|c: char| seq![c])[k as int]);
                assert(ps[nt + k] =~= seq![c0]);
                assert(seq![c0].drop_first() =~= Seq::<char>::empty());
                assert(encode_utf8(seq![c0]) == encode_scalar(seq![c0][0] as u32)
                    + encode_utf8(seq![c0].drop_first()));
                assert(encode_utf8(seq![c0]) =~= encode_scalar(c0 as u32));
                assert(Seq::<u8>::empty() + encode_scalar(c0 as u32) =~= encode_scalar(
                    c0 as u32,
                ));
                assert(bytes@ == encode_utf8(ps[nt + k]).push(0xFF));
            }
            update_votes(&mut v, h);
            proof {
                assert(ps.take(nt + k + 1).drop_last() =~= ps.take(nt + k));
                assert(ps.take(nt + k + 1).last() == ps[nt + k]);
            }
            k = k + 1;
        }
        proof {
            assert(ps.take(nt + nc) =~= ps);
        }
        let mut fp: u32 = 0;
        let mut i: usize = 0;
        while i < 32
            invariant
                i <= 32,
                v@.len() == 32,
                forall|j: int| 0 <= j < 32 ==> v@[j] == tally(ps, j),
                fp == text_hash_prefix(ps, i as int),
            decreases 32 - i,
        {
            let mask_val: u32 = if v[i] > 0 {
                1u32 << (i as u32)
            } else {
                0
            };
            fp = fp | mask_val;
            i = i + 1;
        }
        proof {
            assert(lower@ == lower_of(text@));
            assert(raw_text_hash(lower_of(text@)) == text_hash_prefix(ps, 32));
        }
        fp
    }

    /// The 16-bit temporal hash of a timestamp: the low 16 bits of the
    /// seeded XXHash64 digest of its little-endian bytes.
    pub fn compute_temporal_hash(timestamp: u64) -> (r: u16)
        ensures
            r == temporal_hash_of(timestamp),
    {
        let mut bytes: Vec<u8> = Vec::new();
        bytes.push((timestamp & 0xFF) as u8);
        bytes.push(((timestamp >> 8) & 0xFF) as u8);
        bytes.push(((timestamp >> 16) & 0xFF) as u8);
        bytes.push(((timestamp >> 24) & 0xFF) as u8);
        bytes.push(((timestamp >> 32) & 0xFF) as u8);
        bytes.push(((timestamp >> 40) & 0xFF) as u8);
        bytes.push(((timestamp >> 48) & 0xFF) as u8);
        bytes.push(((timestamp >> 56) & 0xFF) as u8);
        proof {
            assert(bytes@ =~= u64_le(timestamp));
        }
        let h = xxh64(12345, bytes.as_slice());
        (h & 0xFFFF) as u16
    }

    /// The 64-bit partitioned multimodal fingerprint of a text, timestamp,
    /// emotion bitmap and entity type.
    pub fn compute_multimodal(text: &str, timestamp: u64, emotion_val: u8, type_val: u8) -> (r:
        u64)
        ensures
            r == fp_multimodal(text@, timestamp, emotion_val, type_val),
    {
        let semantic = Self::compute_text_hash_32(text);
        let t_hash: u16 = if timestamp > 0 {
            Self::compute_temporal_hash(timestamp)
        } else {
            0
        };
        (semantic as u64) | ((t_hash as u64) << 32) | ((emotion_val as u64) << 48) | ((type_val
            as u64) << 56)
    }

    /// The fingerprint of a bare text: no timestamp, emotion or type.
    pub fn compute(text: &str) -> (r: u64)
        ensures
            r == fp_multimodal(text@, 0, 0, 0),
    {
        Self::compute_multimodal(text, 0, 0, 0)
    }
}


/// Saturating subtraction on u64.
pub open spec fn sat_sub64(a: u64, b: u64) -> u64 {
    if a >= b {
        (a - b) as u64
    } else {
        0
    }
}

/// The relative-time anchor of a lowercased query against a reference
/// time: the first matching trigger group wins, in the stated priority.
pub open spec fn rel_ts(q: Seq<char>, rt: u64) -> u64 {
    if has_sub(q, "今天"@) || has_sub(q, "今日"@) || has_sub(q, "today"@) || has_sub(q, "now"@)
        || has_sub(q, "此刻"@) || has_sub(q, "当前"@) {
        rt
    } else if has_sub(q, "昨天"@) || has_sub(q, "昨日"@) || has_sub(q, "yesterday"@) {
        sat_sub64(rt, 86400)
    } else if has_sub(q, "前天"@) || has_sub(q, "前日"@) {
        sat_sub64(rt, 172800)
    } else if has_sub(q, "大前天"@) {
        sat_sub64(rt, 259200)
    } else if has_sub(q, "前几天"@) || has_sub(q, "最近"@) || has_sub(q, "recently"@) {
        sat_sub64(rt, 259200)
    } else if has_sub(q, "上周"@) || has_sub(q, "last week"@) {
        sat_sub64(rt, 604800)
    } else if has_sub(q, "上个月"@) || has_sub(q, "上月"@) || has_sub(q, "last month"@) {
        sat_sub64(rt, 2592000)
    } else if has_sub(q, "去年"@) || has_sub(q, "last year"@) {
        sat_sub64(rt, 31536000)
    } else if has_sub(q, "前年"@) {
        sat_sub64(rt, 63072000)
    } else if has_sub(q, "刚才"@) || has_sub(q, "刚刚"@) || has_sub(q, "just now"@) {
        sat_sub64(rt, 60)
    } else if has_sub(q, "早上"@) || has_sub(q, "上午"@) || has_sub(q, "morning"@) {
        rt
    } else {
        0
    }
}

/// The timestamp inferred from a lowercased query: the relative anchor
/// when the reference time is meaningful, else a literal-year fallback.
pub open spec fn query_ts(q: Seq<char>, rt: u64) -> u64 {
    let t = if rt > 0 {
        rel_ts(q, rt)
    } else {
        0
    };
    if t == 0 {
        if has_sub(q, "2026"@) {
            1767225600
        } else if has_sub(q, "2025"@) {
            1735689600
        } else if has_sub(q, "2024"@) {
            1704067200
        } else {
            0
        }
    } else {
        t
    }
}

/// The emotion bitmap inferred from a lowercased query: one bit per
/// trigger-word group that occurs in it.
pub open spec fn query_emotion(q: Seq<char>) -> u8 {
    (if has_sub(q, "开心"@) || has_sub(q, "欣慰"@) || has_sub(q, "棒"@) || has_sub(q, "成功"@) {
        1u8
    } else {
        0u8
    }) | (if has_sub(q, "害羞"@) || has_sub(q, "不好意思"@) || has_sub(q, "脸红"@) {
        2u8
    } else {
        0u8
    }) | (if has_sub(q, "害怕"@) || has_sub(q, "担心"@) || has_sub(q, "焦虑"@) {
        4u8
    } else {
        0u8
    }) | (if has_sub(q, "没想到"@) || has_sub(q, "竟然"@) || has_sub(q, "惊讶"@) {
        8u8
    } else {
        0u8
    }) | (if has_sub(q, "难过"@) || has_sub(q, "低落"@) || has_sub(q, "失望"@) || has_sub(
        q,
        "遗憾"@,
    ) {
        16u8
    } else {
        0u8
    }) | (if has_sub(q, "讨厌"@) || has_sub(q, "不喜欢"@) || has_sub(q, "烂"@) {
        32u8
    } else {
        0u8
    }) | (if has_sub(q, "生气"@) || has_sub(q, "恼火"@) || has_sub(q, "不爽"@) {
        64u8
    } else {
        0u8
    }) | (if has_sub(q, "期待"@) || has_sub(q, "愿景"@) || has_sub(q, "未来"@) || has_sub(
        q,
        "规划"@,
    ) {
        128u8
    } else {
        0u8
    })
}

/// The entity type inferred from a lowercased query.
pub open spec fn query_type(q: Seq<char>) -> u8 {
    if has_sub(q, "pero"@) || has_sub(q, "用户"@) || has_sub(q, "女孩"@) {
        TYPE_PERSON
    } else if has_sub(q, "rust"@) || has_sub(q, "代码"@) || has_sub(q, "算法"@) {
        TYPE_TECH
    } else if has_sub(q, "事情"@) || has_sub(q, "发生"@) {
        TYPE_EVENT
    } else if has_sub(q, "蝴蝶结"@) || has_sub(q, "键盘"@) {
        TYPE_OBJECT
    } else {
        TYPE_UNKNOWN
    }
}

/// The fingerprint of a query: the query is lowercased, its timestamp,
/// emotion bitmap and entity type are inferred from trigger words, and the
/// multimodal fingerprint of the lowercased text is built from them.
pub open spec fn query_fp_of(q: Seq<char>, rt: u64) -> u64 {
    fp_multimodal(
        lower_of(q),
        query_ts(lower_of(q), rt),
        query_emotion(lower_of(q)),
        query_type(lower_of(q)),
    )
}

impl SimHash {
    /// Saturating subtraction.
    fn sat_sub_u64(a: u64, b: u64) -> (r: u64)
        ensures
            r == sat_sub64(a, b),
    {
        if a >= b {
            a - b
        } else {
            0
        }
    }

    /// Infers the timestamp, emotion bitmap and entity type of `query`
    /// from its trigger words and returns the multimodal fingerprint of
    /// the lowercased query. `ref_time` anchors relative-time words and is
    /// ignored when zero.
    pub fn compute_for_query(query: &str, ref_time: u64) -> (r: u64)
        ensures
            r == query_fp_of(query@, ref_time),
    {
        let lower = lowercase(query);
        let q = chars_of(lower.as_str());

        let mut timestamp: u64 = 0;
        if ref_time > 0 {
            timestamp = if contains_str(&q, "今天") || contains_str(&q, "今日") || contains_str(
                &q,
                "today",
            ) || contains_str(&q, "now") || contains_str(&q, "此刻") || contains_str(&q, "当前") {
                ref_time
            } else if contains_str(&q, "昨天") || contains_str(&q, "昨日") || contains_str(
                &q,
                "yesterday",
            ) {
                Self::sat_sub_u64(ref_time, 86400)
            } else if contains_str(&q, "前天") || contains_str(&q, "前日") {
                Self::sat_sub_u64(ref_time, 172800)
            } else if contains_str(&q, "大前天") {
                Self::sat_sub_u64(ref_time, 259200)
            } else if contains_str(&q, "前几天") || contains_str(&q, "最近") || contains_str(
                &q,
                "recently",
            ) {
                Self::sat_sub_u64(ref_time, 259200)
            } else if contains_str(&q, "上周") || contains_str(&q, "last week") {
                Self::sat_sub_u64(ref_time, 604800)
            } else if contains_str(&q, "上个月") || contains_str(&q, "上月") || contains_str(
                &q,
                "last month",
            ) {
                Self::sat_sub_u64(ref_time, 2592000)
            } else if contains_str(&q, "去年") || contains_str(&q, "last year") {
                Self::sat_sub_u64(ref_time, 31536000)
            } else if contains_str(&q, "前年") {
                Self::sat_sub_u64(ref_time, 63072000)
            } else if contains_str(&q, "刚才") || contains_str(&q, "刚刚") || contains_str(
                &q,
                "just now",
            ) {
                Self::sat_sub_u64(ref_time, 60)
            } else if contains_str(&q, "早上") || contains_str(&q, "上午") || contains_str(
                &q,
                "morning",
            ) {
                ref_time
            } else {
                0
            };
        }
        if timestamp == 0 {
            if contains_str(&q, "2024") {
                timestamp = 1704067200;
            }
            if contains_str(&q, "2025") {
                timestamp = 1735689600;
            }
            if contains_str(&q, "2026") {
                timestamp = 1767225600;
            }
        }
        proof {
            assert(timestamp == query_ts(lower_of(query@), ref_time));
        }

        let e1: u8 = if contains_str(&q, "开心") || contains_str(&q, "欣慰") || contains_str(
            &q,
            "棒",
        ) || contains_str(&q, "成功") {
            1u8
        } else {
            0u8
        };
        let e2: u8 = if contains_str(&q, "害羞") || contains_str(&q, "不好意思") || contains_str(
            &q,
            "脸红",
        ) {
            2u8
        } else {
            0u8
        };
        let e3: u8 = if contains_str(&q, "害怕") || contains_str(&q, "担心") || contains_str(
            &q,
            "焦虑",
        ) {
            4u8
        } else {
            0u8
        };
        let e4: u8 = if contains_str(&q, "没想到") || contains_str(&q, "竟然") || contains_str(
            &q,
            "惊讶",
        ) {
            8u8
        } else {
            0u8
        };
        let e5: u8 = if contains_str(&q, "难过") || contains_str(&q, "低落") || contains_str(
            &q,
            "失望",
        ) || contains_str(&q, "遗憾") {
            16u8
        } else {
            0u8
        };
        let e6: u8 = if contains_str(&q, "讨厌") || contains_str(&q, "不喜欢") || contains_str(
            &q,
            "烂",
        ) {
            32u8
        } else {
            0u8
        };
        let e7: u8 = if contains_str(&q, "生气") || contains_str(&q, "恼火") || contains_str(
            &q,
            "不爽",
        ) {
            64u8
        } else {
            0u8
        };
        let e8: u8 = if contains_str(&q, "期待") || contains_str(&q, "愿景") || contains_str(
            &q,
            "未来",
        ) || contains_str(&q, "规划") {
            128u8
        } else {
            0u8
        };
        let emotion: u8 = e1 | e2 | e3 | e4 | e5 | e6 | e7 | e8;
        proof {
            assert(emotion == query_emotion(lower_of(query@)));
        }

        let type_val: u8 = if contains_str(&q, "pero") || contains_str(&q, "用户") || contains_str(
            &q,
            "女孩",
        ) {
            TYPE_PERSON
        } else if contains_str(&q, "rust") || contains_str(&q, "代码") || contains_str(&q, "算法") {
            TYPE_TECH
        } else if contains_str(&q, "事情") || contains_str(&q, "发生") {
            TYPE_EVENT
        } else if contains_str(&q, "蝴蝶结") || contains_str(&q, "键盘") {
            TYPE_OBJECT
        } else {
            TYPE_UNKNOWN
        };

        Self::compute_multimodal(lower.as_str(), timestamp, emotion, type_val)
    }
}

} // verus!
