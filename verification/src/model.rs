//! The static embedding file parser: a magic header, a dimension and
//! vocabulary size, then length-prefixed UTF-8 words each followed by a
//! vector of little-endian 32-bit lanes, held here as raw bit patterns.
use vstd::prelude::*;
use vstd::utf8::decode_utf8;
use vstd::utf8::valid_utf8;

use crate::extern_specs::utf8_to_string;

verus! {

/// A malformed vector file: bad magic, a short read, or a word that is
/// not UTF-8.
#[derive(Clone, Copy, PartialEq, Eq, Structural, Debug)]
pub enum ModelError {
    InvalidFormat,
}

/// The ten magic bytes that open a vector file.
pub open spec fn magic_seq() -> Seq<u8> {
    seq![0x50u8, 0x45u8, 0x44u8, 0x53u8, 0x41u8, 0x5Fu8, 0x56u8, 0x45u8, 0x43u8, 0x00u8]
}

/// The 16-bit little-endian value at `p`.
pub open spec fn u16_le_at(b: Seq<u8>, p: int) -> u16
    recommends
        0 <= p,
        p + 2 <= b.len(),
{
    (b[p] as u16) | ((b[p + 1] as u16) << 8)
}

/// The 32-bit little-endian value at `p`.
pub open spec fn u32_le_at(b: Seq<u8>, p: int) -> u32
    recommends
        0 <= p,
        p + 4 <= b.len(),
{
    (b[p] as u32) | ((b[p + 1] as u32) << 8) | ((b[p + 2] as u32) << 16) | ((b[p + 3] as u32)
        << 24)
}

/// The entries parsed from position `pos`: `count` length-prefixed UTF-8
/// words, each followed by `dim` little-endian 32-bit lanes; nothing on
/// a short read or a word that is not UTF-8.
pub open spec fn entries_from(b: Seq<u8>, pos: int, dim: int, count: int) -> Option<
    Seq<(Seq<char>, Seq<u32>)>,
>
    decreases count,
{
    if count <= 0 {
        Some(Seq::empty())
    } else if pos + 1 > b.len() {
        None
    } else {
        let wl = b[pos] as int;
        let wstart = pos + 1;
        if wstart + wl > b.len() {
            None
        } else {
            let wb = b.subrange(wstart, wstart + wl);
            if !valid_utf8(wb) {
                None
            } else {
                let vstart = wstart + wl;
                if vstart + 4 * dim > b.len() {
                    None
                } else {
                    let vec = Seq::new(dim as nat, |k: int| u32_le_at(b, vstart + 4 * k));
                    match entries_from(b, vstart + 4 * dim, dim, count - 1) {
                        Some(rest) => Some(seq![(decode_utf8(wb), vec)] + rest),
                        None => None,
                    }
                }
            }
        }
    }
}

/// The parsed model of a byte image: its dimension and entries, or
/// nothing when the image is malformed.
pub open spec fn model_spec(b: Seq<u8>) -> Option<(u16, Seq<(Seq<char>, Seq<u32>)>)> {
    if b.len() < 18 {
        None
    } else if b.subrange(0, 10) != magic_seq() {
        None
    } else {
        let dim = u16_le_at(b, 12);
        let vs = u32_le_at(b, 14);
        match entries_from(b, 18, dim as int, vs as int) {
            Some(es) => Some((dim, es)),
            None => None,
        }
    }
}

/// The word views of a parsed vocabulary.
pub open spec fn word_views(ws: Seq<String>) -> Seq<Seq<char>> {
    ws.map_values(|s: String| s@)
}

/// The lane views of parsed vectors.
pub open spec fn vector_views(vs: Seq<Vec<u32>>) -> Seq<Seq<u32>> {
    vs.map_values(|v: Vec<u32>| v@)
}

/// A parsed static embedding model: the vector dimension and the
/// vocabulary, with each vector's 32-bit lanes held as raw bit patterns.
pub struct ParsedModel {
    pub dimension: u16,
    pub words: Vec<String>,
    pub vectors: Vec<Vec<u32>>,
}

/// Parses a vector-file byte image, exactly as `model_spec` states.
pub fn parse_model(data: &Vec<u8>) -> (r: Result<ParsedModel, ModelError>)
    ensures
        match r {
            Ok(m) => model_spec(data@) matches Some(p) && m.dimension == p.0 && word_views(
                m.words@,
            ) == p.1.map_values(|en: (Seq<char>, Seq<u32>)| en.0) && vector_views(m.vectors@)
                == p.1.map_values(|en: (Seq<char>, Seq<u32>)| en.1),
            Err(_) => model_spec(data@) is None,
        },
{
    let n = data.len();
    if n < 18 {
        return Err(ModelError::InvalidFormat);
    }
    let magic: [u8; 10] = [0x50, 0x45, 0x44, 0x53, 0x41, 0x5F, 0x56, 0x45, 0x43, 0x00];
    let mut mi: usize = 0;
    while mi < 10
        invariant
            n == data@.len(),
            n >= 18,
            mi <= 10,
            forall|j: int| 0 <= j < mi ==> data@[j] == magic_seq()[j],
        decreases 10 - mi,
    {
        let expect: u8 = if mi == 0 {
            0x50
        } else if mi == 1 {
            0x45
        } else if mi == 2 {
            0x44
        } else if mi == 3 {
            0x53
        } else if mi == 4 {
            0x41
        } else if mi == 5 {
            0x5F
        } else if mi == 6 {
            0x56
        } else if mi == 7 {
            0x45
        } else if mi == 8 {
            0x43
        } else {
            0x00
        };
        if data[mi] != expect {
            proof {
                assert(data@.subrange(0, 10)[mi as int] != magic_seq()[mi as int]);
            }
            return Err(ModelError::InvalidFormat);
        }
        mi = mi + 1;
    }
    proof {
        assert(data@.subrange(0, 10) =~= magic_seq());
    }
    let dim: u16 = (data[12] as u16) | ((data[13] as u16) << 8);
    let vs: u32 = (data[14] as u32) | ((data[15] as u32) << 8) | ((data[16] as u32) << 16) | ((
    data[17] as u32) << 24);
    proof {
        assert(dim == u16_le_at(data@, 12));
        assert(vs == u32_le_at(data@, 14));
    }
    let mut words: Vec<String> = Vec::new();
    let mut vectors: Vec<Vec<u32>> = Vec::new();
    let mut pos: usize = 18;
    let mut rem: u32 = vs;
    let ghost total = vs as int;
    proof {
        assert(word_views(words@) =~= Seq::<Seq<char>>::empty());
        assert(vector_views(vectors@) =~= Seq::<Seq<u32>>::empty());
    }
    while rem > 0
        invariant
            n == data@.len(),
            n >= 18,
            pos <= n,
            dim == u16_le_at(data@, 12),
            total == u32_le_at(data@, 14) as int,
            data@.subrange(0, 10) == magic_seq(),
            word_views(words@).len() == vector_views(vectors@).len(),
            (match entries_from(data@, pos as int, dim as int, rem as int) {
                Some(rest) => entries_from(data@, 18, dim as int, total) matches Some(all)
                    && word_views(words@) + rest.map_values(
                    |en: (Seq<char>, Seq<u32>)| en.0,
                ) =~= all.map_values(|en: (Seq<char>, Seq<u32>)| en.0) && vector_views(vectors@)
                    + rest.map_values(|en: (Seq<char>, Seq<u32>)| en.1) =~= all.map_values(
                    |en: (Seq<char>, Seq<u32>)| en.1,
                ),
                None => entries_from(data@, 18, dim as int, total) is None,
            }),
        decreases rem,
    {
        if pos >= n {
            proof {
                assert(entries_from(data@, pos as int, dim as int, rem as int) is None);
            }
            return Err(ModelError::InvalidFormat);
        }
        let wl: u8 = data[pos];
        let wstart = pos + 1;
        if wl as usize > n - wstart {
            proof {
                assert(entries_from(data@, pos as int, dim as int, rem as int) is None);
            }
            return Err(ModelError::InvalidFormat);
        }
        let mut wb: Vec<u8> = Vec::new();
        let mut k: usize = 0;
        while k < wl as usize
            invariant
                n == data@.len(),
                wstart + wl as int <= n,
                k <= wl as usize,
                wb@ == data@.subrange(wstart as int, wstart + k),
            decreases wl as usize - k,
        {
            wb.push(data[wstart + k]);
            proof {
                assert(wb@ =~= data@.subrange(wstart as int, wstart + k + 1));
            }
            k = k + 1;
        }
        let ghost wbs = data@.subrange(wstart as int, wstart + wl as int);
        let word = match utf8_to_string(wb) {
            Some(s) => s,
            None => {
                proof {
                    assert(entries_from(data@, pos as int, dim as int, rem as int) is None);
                }
                return Err(ModelError::InvalidFormat);
            },
        };
        let vstart = wstart + wl as usize;
        if (dim as usize) > (n - vstart) / 4 {
            proof {
                assert(4 * (dim as int) > n - vstart) by {
                    vstd::arithmetic::div_mod::lemma_fundamental_div_mod(
                        (n - vstart) as int,
                        4,
                    );
                }
                assert(entries_from(data@, pos as int, dim as int, rem as int) is None);
            }
            return Err(ModelError::InvalidFormat);
        }
        let mut vecb: Vec<u32> = Vec::new();
        let mut vk: usize = 0;
        while vk < dim as usize
            invariant
                n == data@.len(),
                vstart + 4 * (dim as int) <= n,
                vk <= dim as usize,
                vecb@.len() == vk,
                forall|j: int|
                    0 <= j < vk ==> vecb@[j] == u32_le_at(data@, vstart + 4 * j),
            decreases dim as usize - vk,
        {
            let base = vstart + 4 * vk;
            let lane: u32 = (data[base] as u32) | ((data[base + 1] as u32) << 8) | ((data[base
                + 2] as u32) << 16) | ((data[base + 3] as u32) << 24);
            vecb.push(lane);
            vk = vk + 1;
        }
        let ghost prev_words = words@;
        let ghost prev_vecs = vectors@;
        words.push(word);
        vectors.push(vecb);
        proof {
            assert(vecb@ =~= Seq::new(dim as nat, |k: int| u32_le_at(data@, vstart + 4 * k)));
            assert(word_views(words@) =~= word_views(prev_words).push(decode_utf8(wbs)));
            assert(vector_views(vectors@) =~= vector_views(prev_vecs).push(vecb@));
        }
        pos = vstart + 4 * (dim as usize);
        rem = rem - 1;
        proof {
            let cur = entries_from(data@, pos as int, dim as int, rem as int);
            if cur is Some {
                assert(entries_from(data@, (pos - 4 * (dim as int) - wl - 1) as int, dim as int, rem + 1)
                    matches Some(withme) && withme =~= seq![(decode_utf8(wbs), vecb@)]
                    + cur->Some_0);
            }
        }
    }
    proof {
        assert(entries_from(data@, pos as int, dim as int, 0) == Some(
            Seq::<(Seq<char>, Seq<u32>)>::empty(),
        ));
    }
    Ok(ParsedModel { dimension: dim, words, vectors })
}


/// The pooling weight of a byte span: the largest weight of any
/// overlapping weighted range, in millionths, defaulting to one.
pub open spec fn span_weight_of(ranges: Seq<(usize, usize, u32)>, start: int, end: int) -> u32
    decreases ranges.len(),
{
    if ranges.len() == 0 {
        1000000u32
    } else {
        let prev = span_weight_of(ranges.drop_last(), start, end);
        let r = ranges.last();
        if start < r.1 && end > r.0 && r.2 > prev {
            r.2
        } else {
            prev
        }
    }
}

/// Computes `span_weight_of` for a token or character span.
pub fn max_span_weight(ranges: &Vec<(usize, usize, u32)>, start: usize, end: usize) -> (r: u32)
    ensures
        r == span_weight_of(ranges@, start as int, end as int),
{
    let n = ranges.len();
    let mut w: u32 = 1000000;
    let mut i: usize = 0;
    proof {
        assert(ranges@.take(0) =~= Seq::<(usize, usize, u32)>::empty());
    }
    while i < n
        invariant
            n == ranges@.len(),
            i <= n,
            w == span_weight_of(ranges@.take(i as int), start as int, end as int),
        decreases n - i,
    {
        proof {
            assert(ranges@.take(i + 1).drop_last() =~= ranges@.take(i as int));
            assert(ranges@.take(i + 1).last() == ranges@[i as int]);
        }
        let rg = ranges[i];
        if start < rg.1 && end > rg.0 && rg.2 > w {
            w = rg.2;
        }
        i = i + 1;
    }
    proof {
        assert(ranges@.take(n as int) =~= ranges@);
    }
    w
}

} // verus!
