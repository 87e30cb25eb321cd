//! The fixed stopword set: keywords on this list are rejected as feature
//! anchors. The set is an exact contract: the Chinese particles and the
//! closed English lists below, lowercase, by exact membership.
use vstd::prelude::*;

use crate::text::str_eq;

verus! {

/// Chinese particles of the stopword set.
pub open spec fn is_zh_particle(s: Seq<char>) -> bool {
        ||| s == "的"@
        ||| s == "是"@
        ||| s == "了"@
        ||| s == "在"@
        ||| s == "我"@
        ||| s == "你"@
        ||| s == "他"@
        ||| s == "她"@
        ||| s == "它"@
        ||| s == "们"@
        ||| s == "这"@
        ||| s == "那"@
        ||| s == "都"@
        ||| s == "和"@
        ||| s == "并"@
        ||| s == "且"@
        ||| s == "也"@
        ||| s == "就"@
        ||| s == "着"@
        ||| s == "吧"@
        ||| s == "吗"@
        ||| s == "呢"@
        ||| s == "啊"@
        ||| s == "呀"@
        ||| s == "呜"@
        ||| s == "哎"@
        ||| s == "哼"@
        ||| s == "呸"@
        ||| s == "喽"@
}
/// English prepositions of the stopword set.
pub open spec fn is_en_preposition(s: Seq<char>) -> bool {
        ||| s == "a"@
        ||| s == "an"@
        ||| s == "the"@
        ||| s == "about"@
        ||| s == "above"@
        ||| s == "across"@
        ||| s == "after"@
        ||| s == "against"@
        ||| s == "along"@
        ||| s == "among"@
        ||| s == "around"@
        ||| s == "at"@
        ||| s == "before"@
        ||| s == "behind"@
        ||| s == "below"@
        ||| s == "beneath"@
        ||| s == "beside"@
        ||| s == "between"@
        ||| s == "beyond"@
        ||| s == "but"@
        ||| s == "by"@
        ||| s == "despite"@
        ||| s == "down"@
        ||| s == "during"@
        ||| s == "except"@
        ||| s == "for"@
        ||| s == "from"@
        ||| s == "in"@
        ||| s == "inside"@
        ||| s == "into"@
        ||| s == "like"@
        ||| s == "near"@
        ||| s == "of"@
        ||| s == "off"@
        ||| s == "on"@
        ||| s == "onto"@
        ||| s == "out"@
        ||| s == "outside"@
        ||| s == "over"@
        ||| s == "past"@
        ||| s == "since"@
        ||| s == "through"@
        ||| s == "throughout"@
        ||| s == "till"@
        ||| s == "to"@
        ||| s == "toward"@
        ||| s == "under"@
        ||| s == "underneath"@
        ||| s == "until"@
        ||| s == "up"@
        ||| s == "upon"@
        ||| s == "with"@
        ||| s == "within"@
        ||| s == "without"@
}
/// English pronouns of the stopword set.
pub open spec fn is_en_pronoun(s: Seq<char>) -> bool {
        ||| s == "i"@
        ||| s == "me"@
        ||| s == "my"@
        ||| s == "mine"@
        ||| s == "we"@
        ||| s == "us"@
        ||| s == "our"@
        ||| s == "ours"@
        ||| s == "you"@
        ||| s == "your"@
        ||| s == "yours"@
        ||| s == "he"@
        ||| s == "him"@
        ||| s == "his"@
        ||| s == "she"@
        ||| s == "her"@
        ||| s == "hers"@
        ||| s == "it"@
        ||| s == "its"@
        ||| s == "they"@
        ||| s == "them"@
        ||| s == "their"@
        ||| s == "theirs"@
        ||| s == "this"@
        ||| s == "that"@
        ||| s == "these"@
        ||| s == "those"@
        ||| s == "who"@
        ||| s == "whom"@
        ||| s == "whose"@
        ||| s == "which"@
        ||| s == "what"@
        ||| s == "each"@
        ||| s == "every"@
        ||| s == "either"@
        ||| s == "neither"@
        ||| s == "some"@
        ||| s == "any"@
        ||| s == "no"@
        ||| s == "none"@
        ||| s == "both"@
        ||| s == "few"@
        ||| s == "many"@
        ||| s == "other"@
        ||| s == "another"@
}
/// English auxiliaries of the stopword set.
pub open spec fn is_en_auxiliary(s: Seq<char>) -> bool {
        ||| s == "am"@
        ||| s == "is"@
        ||| s == "are"@
        ||| s == "was"@
        ||| s == "were"@
        ||| s == "be"@
        ||| s == "being"@
        ||| s == "been"@
        ||| s == "have"@
        ||| s == "has"@
        ||| s == "had"@
        ||| s == "do"@
        ||| s == "does"@
        ||| s == "did"@
        ||| s == "shall"@
        ||| s == "will"@
        ||| s == "should"@
        ||| s == "would"@
        ||| s == "may"@
        ||| s == "might"@
        ||| s == "must"@
        ||| s == "can"@
        ||| s == "could"@
}
/// English conjunctions and question words of the stopword set.
pub open spec fn is_en_conjunction(s: Seq<char>) -> bool {
        ||| s == "and"@
        ||| s == "or"@
        ||| s == "so"@
        ||| s == "nor"@
        ||| s == "yet"@
        ||| s == "although"@
        ||| s == "because"@
        ||| s == "unless"@
        ||| s == "while"@
        ||| s == "where"@
        ||| s == "when"@
        ||| s == "how"@
        ||| s == "whether"@
}

/// Exact membership in the stopword set.
pub open spec fn is_stopword(s: Seq<char>) -> bool {
    is_zh_particle(s) || is_en_preposition(s) || is_en_pronoun(s) || is_en_auxiliary(s) || is_en_conjunction(s)
}

/// Decides `is_zh_particle`.
fn check_zh_particle(s: &str) -> (r: bool)
    ensures
        r == is_zh_particle(s@),
{
    str_eq(s, "的") || str_eq(s, "是") || str_eq(s, "了") || str_eq(s, "在") || str_eq(s, "我")
        || str_eq(s, "你") || str_eq(s, "他") || str_eq(s, "她") || str_eq(s, "它")
        || str_eq(s, "们") || str_eq(s, "这") || str_eq(s, "那") || str_eq(s, "都")
        || str_eq(s, "和") || str_eq(s, "并") || str_eq(s, "且") || str_eq(s, "也")
        || str_eq(s, "就") || str_eq(s, "着") || str_eq(s, "吧") || str_eq(s, "吗")
        || str_eq(s, "呢") || str_eq(s, "啊") || str_eq(s, "呀") || str_eq(s, "呜")
        || str_eq(s, "哎") || str_eq(s, "哼") || str_eq(s, "呸") || str_eq(s, "喽")
}
/// Decides `is_en_preposition`.
fn check_en_preposition(s: &str) -> (r: bool)
    ensures
        r == is_en_preposition(s@),
{
    str_eq(s, "a") || str_eq(s, "an") || str_eq(s, "the") || str_eq(s, "about")
        || str_eq(s, "above") || str_eq(s, "across") || str_eq(s, "after")
        || str_eq(s, "against") || str_eq(s, "along") || str_eq(s, "among")
        || str_eq(s, "around") || str_eq(s, "at") || str_eq(s, "before") || str_eq(s, "behind")
        || str_eq(s, "below") || str_eq(s, "beneath") || str_eq(s, "beside")
        || str_eq(s, "between") || str_eq(s, "beyond") || str_eq(s, "but") || str_eq(s, "by")
        || str_eq(s, "despite") || str_eq(s, "down") || str_eq(s, "during")
        || str_eq(s, "except") || str_eq(s, "for") || str_eq(s, "from") || str_eq(s, "in")
        || str_eq(s, "inside") || str_eq(s, "into") || str_eq(s, "like") || str_eq(s, "near")
        || str_eq(s, "of") || str_eq(s, "off") || str_eq(s, "on") || str_eq(s, "onto")
        || str_eq(s, "out") || str_eq(s, "outside") || str_eq(s, "over") || str_eq(s, "past")
        || str_eq(s, "since") || str_eq(s, "through") || str_eq(s, "throughout")
        || str_eq(s, "till") || str_eq(s, "to") || str_eq(s, "toward") || str_eq(s, "under")
        || str_eq(s, "underneath") || str_eq(s, "until") || str_eq(s, "up") || str_eq(s, "upon")
        || str_eq(s, "with") || str_eq(s, "within") || str_eq(s, "without")
}
/// Decides `is_en_pronoun`.
fn check_en_pronoun(s: &str) -> (r: bool)
    ensures
        r == is_en_pronoun(s@),
{
    str_eq(s, "i") || str_eq(s, "me") || str_eq(s, "my") || str_eq(s, "mine") || str_eq(s, "we")
        || str_eq(s, "us") || str_eq(s, "our") || str_eq(s, "ours") || str_eq(s, "you")
        || str_eq(s, "your") || str_eq(s, "yours") || str_eq(s, "he") || str_eq(s, "him")
        || str_eq(s, "his") || str_eq(s, "she") || str_eq(s, "her") || str_eq(s, "hers")
        || str_eq(s, "it") || str_eq(s, "its") || str_eq(s, "they") || str_eq(s, "them")
        || str_eq(s, "their") || str_eq(s, "theirs") || str_eq(s, "this") || str_eq(s, "that")
        || str_eq(s, "these") || str_eq(s, "those") || str_eq(s, "who") || str_eq(s, "whom")
        || str_eq(s, "whose") || str_eq(s, "which") || str_eq(s, "what") || str_eq(s, "each")
        || str_eq(s, "every") || str_eq(s, "either") || str_eq(s, "neither")
        || str_eq(s, "some") || str_eq(s, "any") || str_eq(s, "no") || str_eq(s, "none")
        || str_eq(s, "both") || str_eq(s, "few") || str_eq(s, "many") || str_eq(s, "other")
        || str_eq(s, "another")
}
/// Decides `is_en_auxiliary`.
fn check_en_auxiliary(s: &str) -> (r: bool)
    ensures
        r == is_en_auxiliary(s@),
{
    str_eq(s, "am") || str_eq(s, "is") || str_eq(s, "are") || str_eq(s, "was")
        || str_eq(s, "were") || str_eq(s, "be") || str_eq(s, "being") || str_eq(s, "been")
        || str_eq(s, "have") || str_eq(s, "has") || str_eq(s, "had") || str_eq(s, "do")
        || str_eq(s, "does") || str_eq(s, "did") || str_eq(s, "shall") || str_eq(s, "will")
        || str_eq(s, "should") || str_eq(s, "would") || str_eq(s, "may") || str_eq(s, "might")
        || str_eq(s, "must") || str_eq(s, "can") || str_eq(s, "could")
}
/// Decides `is_en_conjunction`.
fn check_en_conjunction(s: &str) -> (r: bool)
    ensures
        r == is_en_conjunction(s@),
{
    str_eq(s, "and") || str_eq(s, "or") || str_eq(s, "so") || str_eq(s, "nor")
        || str_eq(s, "yet") || str_eq(s, "although") || str_eq(s, "because")
        || str_eq(s, "unless") || str_eq(s, "while") || str_eq(s, "where") || str_eq(s, "when")
        || str_eq(s, "how") || str_eq(s, "whether")
}

/// Decides `is_stopword`.
pub fn is_stopword_str(s: &str) -> (r: bool)
    ensures
        r == is_stopword(s@),
{
    check_zh_particle(s) || check_en_preposition(s) || check_en_pronoun(s) || check_en_auxiliary(s) || check_en_conjunction(s)
}

} // verus!
