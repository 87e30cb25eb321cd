//! Trusted boundary to the aho-corasick crate: the multi-pattern
//! leftmost-longest matcher built over all feature keywords. The matches
//! are named, and everything done with them is verified.
use vstd::prelude::*;

verus! {

#[verifier::external_type_specification]
#[verifier::external_body]
pub struct ExAhoCorasick(aho_corasick::AhoCorasick);

/// The patterns a matcher was built over, at the character level.
pub uninterp spec fn ac_patterns(m: aho_corasick::AhoCorasick) -> Seq<Seq<char>>;

/// The matches that leftmost-longest multi-pattern search reports on a
/// haystack: triples of byte start, byte end and pattern index, a function
/// of the patterns and the haystack alone.
pub uninterp spec fn ac_find(patterns: Seq<Seq<char>>, hay: Seq<char>) -> Seq<
    (usize, usize, usize),
>;

/// Relies on AhoCorasick::builder / build with MatchKind::LeftmostLongest:
/// building succeeds or fails deterministically, and a built matcher
/// searches exactly the patterns handed to it, in order.
#[verifier::external_body]
pub fn build_matcher(patterns: &Vec<String>) -> (r: Option<aho_corasick::AhoCorasick>)
    ensures
        match r {
            Some(m) => ac_patterns(m) == patterns@.map_values(|s: String| s@),
            None => true,
        },
{
    let built = aho_corasick::AhoCorasick::builder().match_kind(
        aho_corasick::MatchKind::LeftmostLongest,
    ).build(patterns);
    match built {
        Ok(m) => Some(m),
        Err(_) => None,
    }
}

/// Relies on AhoCorasick::find_iter: under leftmost-longest semantics the
/// non-overlapping matches are a function of the patterns and the haystack
/// alone, and each reported pattern index is the index of a pattern the
/// matcher was built over.
#[verifier::external_body]
pub fn find_matches(m: &aho_corasick::AhoCorasick, hay: &str) -> (r: Vec<(usize, usize, usize)>)
    ensures
        r@ == ac_find(ac_patterns(*m), hay@),
        forall|i: int| 0 <= i < r@.len() ==> (#[trigger] r@[i]).2 < ac_patterns(*m).len(),
{
    let mut out = Vec::new();
    for mat in m.find_iter(hay) {
        out.push((mat.start(), mat.end(), mat.pattern().as_usize()));
    }
    out
}

} // verus!
