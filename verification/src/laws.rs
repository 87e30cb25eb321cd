//! The library's stated laws: self-similarity, fingerprint field
//! isolation, index membership, edge symmetry, Hebbian growth bounds, and
//! the shape of retrieval results.
use vstd::prelude::*;

use crate::codec::pack64;
use crate::codec::pop64;
use crate::codec::popcnt;
use crate::codec::similarity_micros_of;
use crate::codec::MASK_AFFECTIVE;
use crate::codec::MASK_SEMANTIC;
use crate::codec::MASK_TEMPORAL;
use crate::codec::MASK_TYPE;
use crate::engine::affective_bucket;
use crate::engine::emo_field;
use crate::engine::is_bit_key;
use crate::engine::onto_tables_post;
use crate::engine::temporal_bucket;
use crate::engine::temporal_field;
use crate::engine::AdvancedEngine;
use crate::graph::efind;
use crate::graph::efind_from;
use crate::graph::onto_upsert_spec;
use crate::graph::reinforce_edge;
use crate::graph::GraphEdge;
use crate::graph::Node;
use crate::graph::NodeType;
use crate::retrieve::retrieve_spec;
use crate::sorts::sort_pairs_spec;

verus! {

/// No low bit of zero is set.
proof fn lemma_popcnt_zero(n: int)
    requires
        0 <= n,
    ensures
        popcnt(0, n) == 0,
    decreases n,
{
    if n > 0 {
        lemma_popcnt_zero(n - 1);
        let k = (n - 1) as u64;
        assert((0u64 >> k) & 1 == 0) by (bit_vector);
    }
}

/// A fingerprint is fully similar to itself under any nonempty mask.
pub proof fn lemma_similarity_self(a: u64, m: u64)
    requires
        pop64(m) > 0,
    ensures
        similarity_micros_of(a, a, m) == 1000000,
{
    assert((a ^ a) & m == 0) by (bit_vector);
    lemma_popcnt_zero(64);
    let pm = pop64(m);
    vstd::arithmetic::div_mod::lemma_div_by_multiple(1000000, pm);
}

/// The packed fingerprint is the bitwise OR of its four field encodings,
/// and each field reads back exactly: the fields do not bleed across the
/// mask boundaries.
pub proof fn lemma_pack64_fields(s: u32, t: u16, e: u8, ty: u8)
    ensures
        pack64(s, t, e, ty) == pack64(s, 0, 0, 0) | pack64(0, t, 0, 0) | pack64(0, 0, e, 0)
            | pack64(0, 0, 0, ty),
        pack64(s, t, e, ty) & MASK_SEMANTIC == s as u64,
        (pack64(s, t, e, ty) & MASK_TEMPORAL) >> 32 == t as u64,
        (pack64(s, t, e, ty) & MASK_AFFECTIVE) >> 48 == e as u64,
        (pack64(s, t, e, ty) & MASK_TYPE) >> 56 == ty as u64,
{
    let sv = s as u64;
    let tv = t as u64;
    let ev = e as u64;
    let yv = ty as u64;
    assert(sv <= 0xFFFFFFFF && tv <= 0xFFFF && ev <= 0xFF && yv <= 0xFF ==> {
        let p = sv | (tv << 32) | (ev << 48) | (yv << 56);
        &&& p == (sv | (0u64 << 32) | (0u64 << 48) | (0u64 << 56)) | (0u64 | (tv << 32) | (
        0u64 << 48) | (0u64 << 56)) | (0u64 | (0u64 << 32) | (ev << 48) | (0u64 << 56)) | (
        0u64 | (0u64 << 32) | (0u64 << 48) | (yv << 56))
        &&& p & 0xFFFFFFFFu64 == sv
        &&& (p & 0xFFFF00000000u64) >> 32 == tv
        &&& (p & 0x00FF000000000000u64) >> 48 == ev
        &&& (p & 0xFF00000000000000u64) >> 56 == yv
    }) by (bit_vector);
}

/// An event with a nonzero temporal field stands in that field's bucket.
pub proof fn lemma_temporal_bucket_complete(ns: Seq<Node>, i: int)
    requires
        0 <= i < ns.len(),
        ns[i].node_type == NodeType::Event,
        temporal_field(ns[i].fingerprint) != 0,
    ensures
        temporal_bucket(ns, temporal_field(ns[i].fingerprint) as i64).contains(ns[i].id),
    decreases ns.len(),
{
    let w = temporal_field(ns[i].fingerprint) as i64;
    if i == ns.len() - 1 {
        let b = temporal_bucket(ns, w);
        assert(b.last() == ns[i].id);
        assert(b.contains(ns[i].id)) by {
            assert(b[b.len() - 1] == ns[i].id);
        }
    } else {
        lemma_temporal_bucket_complete(ns.drop_last(), i);
        assert(ns.drop_last()[i] == ns[i]);
        let bp = temporal_bucket(ns.drop_last(), w);
        let k = choose|k: int| 0 <= k < bp.len() && bp[k] == ns[i].id;
        assert(temporal_bucket(ns, w)[k] == ns[i].id);
    }
}

/// Every id in a temporal bucket belongs to an event whose nonzero
/// temporal field names that bucket.
pub proof fn lemma_temporal_bucket_sound(ns: Seq<Node>, w: i64, id: i64)
    requires
        temporal_bucket(ns, w).contains(id),
    ensures
        exists|i: int|
            0 <= i < ns.len() && (#[trigger] ns[i]).id == id && ns[i].node_type
                == NodeType::Event && temporal_field(ns[i].fingerprint) != 0 && temporal_field(
                ns[i].fingerprint,
            ) as i64 == w,
    decreases ns.len(),
{
    if ns.len() > 0 {
        let b = temporal_bucket(ns, w);
        let bp = temporal_bucket(ns.drop_last(), w);
        let k = choose|k: int| 0 <= k < b.len() && b[k] == id;
        if k < bp.len() {
            assert(bp[k] == id);
            lemma_temporal_bucket_sound(ns.drop_last(), w, id);
            let i = choose|i: int|
                0 <= i < ns.drop_last().len() && (#[trigger] ns.drop_last()[i]).id == id
                    && ns.drop_last()[i].node_type == NodeType::Event && temporal_field(
                    ns.drop_last()[i].fingerprint,
                ) != 0 && temporal_field(ns.drop_last()[i].fingerprint) as i64 == w;
            assert(ns[i] == ns.drop_last()[i]);
        } else {
            assert(ns[ns.len() - 1].id == id);
        }
    }
}

/// Under well-formed node storage an event stands in at most one
/// temporal bucket.
pub proof fn lemma_temporal_bucket_unique(
    ns: Seq<Node>,
    keys: Seq<i64>,
    w1: i64,
    w2: i64,
    id: i64,
)
    requires
        keys.len() == ns.len(),
        forall|i: int, j: int| 0 <= i < j < keys.len() ==> keys[i] != keys[j],
        forall|i: int| 0 <= i < ns.len() ==> (#[trigger] ns[i]).id == keys[i],
        temporal_bucket(ns, w1).contains(id),
        temporal_bucket(ns, w2).contains(id),
    ensures
        w1 == w2,
{
    lemma_temporal_bucket_sound(ns, w1, id);
    lemma_temporal_bucket_sound(ns, w2, id);
    let i1 = choose|i: int|
        0 <= i < ns.len() && (#[trigger] ns[i]).id == id && ns[i].node_type == NodeType::Event
            && temporal_field(ns[i].fingerprint) != 0 && temporal_field(ns[i].fingerprint) as i64
            == w1;
    let i2 = choose|i: int|
        0 <= i < ns.len() && (#[trigger] ns[i]).id == id && ns[i].node_type == NodeType::Event
            && temporal_field(ns[i].fingerprint) != 0 && temporal_field(ns[i].fingerprint) as i64
            == w2;
    if i1 != i2 {
        assert(keys[i1] == keys[i2]);
    }
}

/// An event carrying an emotion bit stands in that bit's bucket.
pub proof fn lemma_affective_bucket_complete(ns: Seq<Node>, i: int, w: i64)
    requires
        0 <= i < ns.len(),
        ns[i].node_type == NodeType::Event,
        is_bit_key(w),
        emo_field(ns[i].fingerprint) & (w as u8) != 0,
    ensures
        affective_bucket(ns, w).contains(ns[i].id),
    decreases ns.len(),
{
    if i == ns.len() - 1 {
        let b = affective_bucket(ns, w);
        assert(b.contains(ns[i].id)) by {
            assert(b[b.len() - 1] == ns[i].id);
        }
    } else {
        lemma_affective_bucket_complete(ns.drop_last(), i, w);
        assert(ns.drop_last()[i] == ns[i]);
        let bp = affective_bucket(ns.drop_last(), w);
        let k = choose|k: int| 0 <= k < bp.len() && bp[k] == ns[i].id;
        assert(affective_bucket(ns, w)[k] == ns[i].id);
    }
}

/// Every id in an affective bucket belongs to an event carrying that
/// emotion bit.
pub proof fn lemma_affective_bucket_sound(ns: Seq<Node>, w: i64, id: i64)
    requires
        affective_bucket(ns, w).contains(id),
    ensures
        is_bit_key(w),
        exists|i: int|
            0 <= i < ns.len() && (#[trigger] ns[i]).id == id && ns[i].node_type
                == NodeType::Event && emo_field(ns[i].fingerprint) & (w as u8) != 0,
    decreases ns.len(),
{
    if ns.len() > 0 {
        let b = affective_bucket(ns, w);
        let bp = affective_bucket(ns.drop_last(), w);
        let k = choose|k: int| 0 <= k < b.len() && b[k] == id;
        if k < bp.len() {
            assert(bp[k] == id);
            lemma_affective_bucket_sound(ns.drop_last(), w, id);
            let i = choose|i: int|
                0 <= i < ns.drop_last().len() && (#[trigger] ns.drop_last()[i]).id == id
                    && ns.drop_last()[i].node_type == NodeType::Event && emo_field(
                    ns.drop_last()[i].fingerprint,
                ) & (w as u8) != 0;
            assert(ns[i] == ns.drop_last()[i]);
        } else {
            assert(ns[ns.len() - 1].id == id);
        }
    }
}

/// Searching before the found index passes only other targets.
proof fn lemma_efind_prefix(es: Seq<GraphEdge>, tgt: i64, i: int, j: int)
    requires
        0 <= i,
        efind_from(es, tgt, i) == Some(j),
    ensures
        i <= j < es.len(),
        es[j].target_node_id == tgt,
        forall|k: int| i <= k < j ==> (#[trigger] es[k]).target_node_id != tgt,
    decreases es.len() - i,
{
    if i < es.len() && es[i].target_node_id != tgt {
        lemma_efind_prefix(es, tgt, i + 1, j);
    }
}

/// A search that skips a run of other targets resumes after it.
proof fn lemma_efind_skip(es: Seq<GraphEdge>, tgt: i64, i: int, j: int)
    requires
        0 <= i <= j <= es.len(),
        forall|k: int| i <= k < j ==> (#[trigger] es[k]).target_node_id != tgt,
    ensures
        efind_from(es, tgt, i) == efind_from(es, tgt, j),
    decreases j - i,
{
    if i < j {
        lemma_efind_skip(es, tgt, i + 1, j);
    }
}

/// The missing-target search sees every edge.
proof fn lemma_efind_none(es: Seq<GraphEdge>, tgt: i64, i: int)
    requires
        0 <= i,
        efind_from(es, tgt, i) is None,
    ensures
        forall|k: int| i <= k < es.len() ==> (#[trigger] es[k]).target_node_id != tgt,
    decreases es.len() - i,
{
    if i < es.len() {
        lemma_efind_none(es, tgt, i + 1);
    }
}

/// After an ontology upsert the typed edge stands: the edge to the target
/// exists, carries the new type, and is at least as strong as the
/// quantized weight.
pub proof fn lemma_onto_upsert_edge(es: Seq<GraphEdge>, tgt: i64, q: u16, et: u8)
    ensures
        ({
            let r = onto_upsert_spec(es, tgt, q, et);
            &&& efind(r, tgt) is Some
            &&& 0 <= efind(r, tgt)->Some_0 < r.len()
            &&& r[efind(r, tgt)->Some_0].target_node_id == tgt
            &&& r[efind(r, tgt)->Some_0].edge_type == et
            &&& r[efind(r, tgt)->Some_0].connection_strength >= q
        }),
{
    let r = onto_upsert_spec(es, tgt, q, et);
    match efind(es, tgt) {
        Some(i) => {
            lemma_efind_prefix(es, tgt, 0, i);
            assert(forall|k: int| 0 <= k < i ==> (#[trigger] r[k]).target_node_id != tgt);
            lemma_efind_skip(r, tgt, 0, i);
            assert(efind_from(r, tgt, i) == Some(i));
            assert(r[i] == reinforce_edge(es[i], q, et));
        },
        None => {
            lemma_efind_none(es, tgt, 0);
            assert(forall|k: int| 0 <= k < es.len() ==> (#[trigger] r[k]).target_node_id != tgt);
            lemma_efind_skip(r, tgt, 0, es.len() as int);
            assert(r[es.len() as int].target_node_id == tgt);
            assert(efind_from(r, tgt, es.len() as int) == Some(es.len() as int));
        },
    }
}

/// Equality and inhibition edges are symmetric: after a typed ontology
/// maintenance step both directions carry the type, each at least as
/// strong as the quantized weight. A representation edge makes no such
/// promise for the reverse direction.
pub proof fn lemma_typed_edge_bidirectional(
    pre: AdvancedEngine,
    post: AdvancedEngine,
    src: i64,
    tgt: i64,
    q: u16,
    et: u8,
)
    requires
        onto_tables_post(pre, post, src, tgt, q, et),
        et == 1 || et == 255,
    ensures
        post.ontology_graph.getv(src) matches Some(l) && (efind(l@, tgt) matches Some(i)
            && l@[i].edge_type == et && l@[i].connection_strength >= q),
        post.ontology_graph.getv(tgt) matches Some(l) && (efind(l@, src) matches Some(i)
            && l@[i].edge_type == et && l@[i].connection_strength >= q),
{
    let fwd = onto_upsert_spec(crate::engine::edge_base(pre.ontology_graph, src), tgt, q, et);
    if tgt == src {
        lemma_onto_upsert_edge(fwd, src, q, et);
    } else {
        lemma_onto_upsert_edge(crate::engine::edge_base(pre.ontology_graph, src), tgt, q, et);
        lemma_onto_upsert_edge(crate::engine::edge_base(pre.ontology_graph, tgt), src, q, et);
    }
}

/// Hebbian growth: inserting the same weighted edge twice leaves its
/// strength at least the quantized weight and at most saturation.
pub proof fn lemma_reinforce_twice(es: Seq<GraphEdge>, tgt: i64, q: u16, et: u8)
    ensures
        ({
            let r2 = onto_upsert_spec(onto_upsert_spec(es, tgt, q, et), tgt, q, et);
            &&& efind(r2, tgt) is Some
            &&& q <= r2[efind(r2, tgt)->Some_0].connection_strength <= 65535
        }),
{
    lemma_onto_upsert_edge(onto_upsert_spec(es, tgt, q, et), tgt, q, et);
}

/// An entry naming a stored event node.
pub open spec fn is_event_entry(e: AdvancedEngine, p: (i64, i64)) -> bool {
    e.nodes.getv(p.0) matches Some(n) && n.node_type == NodeType::Event
}

/// Sorting permutes the scored pairs.
pub proof fn lemma_sort_pairs_spec_multiset(s: Seq<(i64, i64)>)
    ensures
        sort_pairs_spec(s).to_multiset() == s.to_multiset(),
        sort_pairs_spec(s).len() == s.len(),
    decreases s.len(),
{
    broadcast use vstd::multiset::group_multiset_axioms;

    if s.len() > 0 {
        lemma_sort_pairs_spec_multiset(s.drop_last());
        let prev = sort_pairs_spec(s.drop_last());
        let pos = crate::sorts::score_pos_from(prev, s.last().1, 0);
        crate::sorts::lemma_score_pos_range(prev, s.last().1, 0);
        vstd::seq_lib::to_multiset_insert::<(i64, i64)>(prev, pos, s.last());
        vstd::seq_lib::to_multiset_build::<(i64, i64)>(s.drop_last(), s.last());
        assert(s.drop_last().push(s.last()) =~= s);
    } else {
        assert(s =~= Seq::<(i64, i64)>::empty());
    }
}

/// Sorting keeps every entry an event entry.
proof fn lemma_sort_keeps_events(e: AdvancedEngine, s: Seq<(i64, i64)>)
    requires
        forall|k: int| 0 <= k < s.len() ==> is_event_entry(e, #[trigger] s[k]),
    ensures
        forall|k: int|
            0 <= k < sort_pairs_spec(s).len() ==> is_event_entry(e, #[trigger] sort_pairs_spec(
                s,
            )[k]),
{
    broadcast use vstd::multiset::group_multiset_axioms;

    lemma_sort_pairs_spec_multiset(s);
    let r = sort_pairs_spec(s);
    assert forall|k: int| 0 <= k < r.len() implies is_event_entry(e, #[trigger] r[k]) by {
        vstd::seq_lib::to_multiset_contains::<(i64, i64)>(r, r[k]);
        assert(r.contains(r[k]));
        vstd::seq_lib::to_multiset_contains::<(i64, i64)>(s, r[k]);
        assert(s.contains(r[k]));
        let j = choose|j: int| 0 <= j < s.len() && s[j] == r[k];
        assert(is_event_entry(e, s[j]));
    }
}

/// The projected entries all name stored events.
proof fn lemma_events_only_prop(e: AdvancedEngine, s: Seq<(i64, i64)>)
    ensures
        forall|k: int|
            0 <= k < crate::retrieve::events_only(s, e).len() ==> is_event_entry(
                e,
                #[trigger] crate::retrieve::events_only(s, e)[k],
            ),
    decreases s.len(),
{
    if s.len() > 0 {
        lemma_events_only_prop(e, s.drop_last());
        let r = crate::retrieve::events_only(s, e);
        let rp = crate::retrieve::events_only(s.drop_last(), e);
        assert forall|k: int| 0 <= k < r.len() implies is_event_entry(e, #[trigger] r[k]) by {
            if k < rp.len() {
                assert(r[k] == rp[k]);
            }
        }
    }
}

/// Every retrieval result names a stored event node, and the list is
/// sorted by score descending.
pub proof fn lemma_retrieve_shape(e: AdvancedEngine, q: Seq<char>, rt: u64)
    ensures
        forall|k: int|
            0 <= k < retrieve_spec(e, q, rt).len() ==> is_event_entry(
                e,
                #[trigger] retrieve_spec(e, q, rt)[k],
            ),
        crate::sorts::pairs_sorted_desc(retrieve_spec(e, q, rt)),
{
    broadcast use vstd::multiset::group_multiset_axioms;

    let ql = crate::extern_specs::lower_of(q);
    let qfp = crate::codec::query_fp_of(ql, rt);
    let ms = crate::retrieve::query_matches(e, ql);
    let a1 = crate::retrieve::stage1(ms, crate::sorts::string_views(e.feature_keywords@), e.keyword_to_node);
    let a3 = crate::retrieve::stage3(crate::retrieve::stage2(a1, e, qfp), e, qfp);
    let a5 = crate::retrieve::stage5(crate::retrieve::stage4(a3, e));
    let seeds = crate::retrieve::cap5000(sort_pairs_spec(a5));
    let merged = crate::retrieve::merge_incs(a5, crate::retrieve::stage6_incs(seeds, e));
    let evs = crate::retrieve::events_only(merged, e);
    lemma_events_only_prop(e, merged);
    lemma_sort_keeps_events(e, evs);
    let sorted1 = sort_pairs_spec(evs);
    let refined = crate::retrieve::refine50(sorted1, e, qfp, rt);
    assert forall|k: int| 0 <= k < refined.len() implies is_event_entry(
        e,
        #[trigger] refined[k],
    ) by {
        assert(refined[k].0 == sorted1[k].0);
        assert(is_event_entry(e, sorted1[k]));
    }
    lemma_sort_keeps_events(e, refined);
    lemma_sort_pairs_spec_sorted(refined);
}

/// The insertion point splits the output: scores at least `k` before it,
/// a smaller score at it when it is inside.
proof fn lemma_score_prefix(out: Seq<(i64, i64)>, k: i64, i: int, j: int)
    requires
        0 <= i <= out.len(),
        crate::sorts::score_pos_from(out, k, i) == j,
    ensures
        i <= j <= out.len(),
        j < out.len() ==> out[j].1 < k,
        forall|a: int| i <= a < j ==> (#[trigger] out[a]).1 >= k,
    decreases out.len() - i,
{
    if i < out.len() && !(out[i].1 < k) {
        lemma_score_prefix(out, k, i + 1, j);
    }
}

/// A stable insertion sort result is sorted by score, descending.
pub proof fn lemma_sort_pairs_spec_sorted(s: Seq<(i64, i64)>)
    ensures
        crate::sorts::pairs_sorted_desc(sort_pairs_spec(s)),
    decreases s.len(),
{
    if s.len() > 0 {
        lemma_sort_pairs_spec_sorted(s.drop_last());
        let prev = sort_pairs_spec(s.drop_last());
        let x = s.last();
        let k = x.1;
        let pos = crate::sorts::score_pos_from(prev, k, 0);
        crate::sorts::lemma_score_pos_range(prev, k, 0);
        lemma_score_prefix(prev, k, 0, pos);
        let r = prev.insert(pos, x);
        assert forall|b: int| pos <= b < prev.len() implies (#[trigger] prev[b]).1 < k by {
            if b > pos {
                assert(prev[pos].1 >= prev[b].1);
            } else {
                assert(prev[pos].1 < k);
            }
        }
        assert forall|a: int, b: int| 0 <= a < b < r.len() implies r[a].1 >= r[b].1 by {
            if b < pos {
            } else if a == pos || b == pos {
            } else if a < pos {
            } else {
            }
        }
    }
}

} // verus!
