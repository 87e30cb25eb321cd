//! The multi-stage retrieval pipeline: feature match, temporal and
//! affective recall, one-hop ontology spread with typed edges, energy
//! normalization, lateral-inhibited memory spread, event projection with
//! fingerprint refinement, and the chaos blend. Scores are signed
//! millionths.
use vstd::prelude::*;

use crate::codec::query_fp_of;
use crate::codec::similarity_micros_of;
use crate::codec::MASK_AFFECTIVE;
use crate::codec::MASK_SEMANTIC;
use crate::codec::MASK_TEMPORAL;
use crate::codec::MASK_TYPE;
use crate::codec::SimHash;
use crate::engine::AdvancedEngine;
use crate::extern_specs::lower_of;
use crate::extern_specs::lowercase;
use crate::fixed::ebb_factor_of;
use crate::fixed::energy_of;
use crate::fixed::inv_freq_of;
use crate::fixed::pop128;
use crate::fixed::sat64;
use crate::fixed::sat_add64;
use crate::fixed::tdiv;
use crate::graph::GraphEdge;
use crate::graph::NodeType;
use crate::matcher::ac_find;
use crate::matcher::ac_patterns;
use crate::sorts::pairs_sorted_desc;
use crate::sorts::sort_pairs_spec;
use crate::sorts::string_views;
use crate::store::KwTable;
use vstd::pervasive::VecAdditionalExecFns;

verus! {

/// The first index at or after `i` whose id equals `k`, if any.
pub open spec fn afind_from(s: Seq<(i64, i64)>, k: i64, i: int) -> Option<int>
    decreases s.len() - i,
{
    if i < 0 || i >= s.len() {
        None
    } else if s[i].0 == k {
        Some(i)
    } else {
        afind_from(s, k, i + 1)
    }
}

/// The index of id `k` in an activation list, if present.
pub open spec fn afind(s: Seq<(i64, i64)>, k: i64) -> Option<int> {
    afind_from(s, k, 0)
}

/// Sets the activation of `k` to `v`, appending a new entry when absent.
pub open spec fn set_at(s: Seq<(i64, i64)>, k: i64, v: i64) -> Seq<(i64, i64)> {
    match afind(s, k) {
        Some(i) => s.update(i, (k, v)),
        None => s.push((k, v)),
    }
}

/// Raises the activation of `k` to at least `v`: an absent entry starts
/// at zero and is raised only when `v` is positive.
pub open spec fn raise_to(s: Seq<(i64, i64)>, k: i64, v: i64) -> Seq<(i64, i64)> {
    match afind(s, k) {
        Some(i) => if v > s[i].1 {
            s.update(i, (k, v))
        } else {
            s
        },
        None => s.push((k, if v > 0 {
            v
        } else {
            0i64
        })),
    }
}

/// Adds `e` to the activation of `k`, saturating; an absent entry starts
/// at zero.
pub open spec fn add_sat(s: Seq<(i64, i64)>, k: i64, e: i64) -> Seq<(i64, i64)> {
    match afind(s, k) {
        Some(i) => s.update(i, (k, sat_add64(s[i].1, e))),
        None => s.push((k, e)),
    }
}

/// Negation saturated into the i64 range.
pub open spec fn neg64(v: i64) -> i64 {
    sat64(-(v as int))
}

/// Feature activation: every match whose pattern resolves to a
/// registered feature keyword sets that feature's activation to one, in
/// match order.
pub open spec fn stage1(ms: Seq<(usize, usize, usize)>, kws: Seq<Seq<char>>, kt: KwTable) -> Seq<
    (i64, i64),
>
    decreases ms.len(),
{
    if ms.len() == 0 {
        Seq::empty()
    } else {
        let prev = stage1(ms.drop_last(), kws, kt);
        let pid = ms.last().2 as int;
        if 0 <= pid < kws.len() {
            match kt.getid(kws[pid]) {
                Some(nid) => set_at(prev, nid, 1000000),
                None => prev,
            }
        } else {
            prev
        }
    }
}

/// Raises every listed id to at least `v`, in order.
pub open spec fn raise_ids(s: Seq<(i64, i64)>, ids: Seq<i64>, v: i64) -> Seq<(i64, i64)>
    decreases ids.len(),
{
    if ids.len() == 0 {
        s
    } else {
        raise_to(raise_ids(s, ids.drop_last(), v), ids.last(), v)
    }
}

/// Temporal recall: a query with a nonzero temporal field raises every
/// event in that field's bucket to at least 0.6.
pub open spec fn stage2(act: Seq<(i64, i64)>, e: AdvancedEngine, qfp: u64) -> Seq<(i64, i64)> {
    if qfp & MASK_TEMPORAL != 0 {
        match e.temporal_index.getv((((qfp & MASK_TEMPORAL) >> 32) as u16) as i64) {
            Some(b) => raise_ids(act, b@, 600000),
            None => act,
        }
    } else {
        act
    }
}

/// Affective recall from bit `b` up: each set emotion bit of the query
/// raises every event in that bit's bucket to at least 0.7.
pub open spec fn stage3_from(act: Seq<(i64, i64)>, e: AdvancedEngine, emo: u8, b: int) -> Seq<
    (i64, i64),
>
    decreases 8 - b,
{
    if b < 0 || b >= 8 {
        act
    } else {
        let a2 = if emo & (1u8 << (b as u8)) != 0 {
            match e.affective_index.getv((1u8 << (b as u8)) as i64) {
                Some(bk) => raise_ids(act, bk@, 700000),
                None => act,
            }
        } else {
            act
        };
        stage3_from(a2, e, emo, b + 1)
    }
}

/// Affective recall over all eight emotion bits.
pub open spec fn stage3(act: Seq<(i64, i64)>, e: AdvancedEngine, qfp: u64) -> Seq<(i64, i64)> {
    stage3_from(act, e, ((qfp & MASK_AFFECTIVE) >> 48) as u8, 0)
}

/// The in-degree used for inverse-frequency damping: the recorded degree,
/// at least one.
pub open spec fn deg_used(e: AdvancedEngine, id: i64) -> int {
    let d = match e.in_degrees.getv(id) {
        Some(v) => v as int,
        None => 1,
    };
    if d >= 1 {
        d
    } else {
        1
    }
}

/// One-hop spread along one ontology edge: equality passes the source
/// score losslessly; inhibition subtracts the damped energy; a
/// representation edge raises the target when the energy reaches 0.05.
pub open spec fn spread_edge(
    exp: Seq<(i64, i64)>,
    score: i64,
    ed: GraphEdge,
    e: AdvancedEngine,
) -> Seq<(i64, i64)> {
    if ed.edge_type == 1 {
        raise_to(exp, ed.target_node_id, score)
    } else {
        let en = energy_of(
            score,
            ed.connection_strength,
            950000,
            inv_freq_of(deg_used(e, ed.target_node_id)),
        );
        if ed.edge_type == 255 {
            add_sat(exp, ed.target_node_id, neg64(en))
        } else if en >= 50000 {
            raise_to(exp, ed.target_node_id, en)
        } else {
            exp
        }
    }
}

/// Spread along a list of ontology edges, in order.
pub open spec fn spread_edges(
    exp: Seq<(i64, i64)>,
    score: i64,
    es: Seq<GraphEdge>,
    e: AdvancedEngine,
) -> Seq<(i64, i64)>
    decreases es.len(),
{
    if es.len() == 0 {
        exp
    } else {
        spread_edge(spread_edges(exp, score, es.drop_last(), e), score, es.last(), e)
    }
}

/// Ontology spread from every activated node, in activation order.
pub open spec fn stage4_acts(
    exp: Seq<(i64, i64)>,
    act: Seq<(i64, i64)>,
    e: AdvancedEngine,
) -> Seq<(i64, i64)>
    decreases act.len(),
{
    if act.len() == 0 {
        exp
    } else {
        let prev = stage4_acts(exp, act.drop_last(), e);
        match e.ontology_graph.getv(act.last().0) {
            Some(es) => spread_edges(prev, act.last().1, es@, e),
            None => prev,
        }
    }
}

/// Ontology spread: the activations are cloned and every entry of the
/// starting activations spreads over its ontology out-edges.
pub open spec fn stage4(act: Seq<(i64, i64)>, e: AdvancedEngine) -> Seq<(i64, i64)> {
    stage4_acts(act, act, e)
}

/// The sum of all activations.
pub open spec fn total_of(s: Seq<(i64, i64)>) -> int
    decreases s.len(),
{
    if s.len() == 0 {
        0
    } else {
        total_of(s.drop_last()) + s.last().1
    }
}

/// Energy normalization: when the total activation exceeds ten units,
/// every activation is scaled by ten over the total.
pub open spec fn stage5(s: Seq<(i64, i64)>) -> Seq<(i64, i64)> {
    let tot = total_of(s);
    if tot > 10000000 {
        s.map_values(|p: (i64, i64)| (p.0, sat64(tdiv(p.1 * 10000000, tot))))
    } else {
        s
    }
}

/// Memory spread along one list of memory edges: damped energies below
/// 0.01 are dropped, the rest accumulate additively.
pub open spec fn inc_edges(
    incs: Seq<(i64, i64)>,
    score: i64,
    es: Seq<GraphEdge>,
    e: AdvancedEngine,
) -> Seq<(i64, i64)>
    decreases es.len(),
{
    if es.len() == 0 {
        incs
    } else {
        let prev = inc_edges(incs, score, es.drop_last(), e);
        let ed = es.last();
        let en = energy_of(
            score,
            ed.connection_strength,
            850000,
            inv_freq_of(deg_used(e, ed.target_node_id)),
        );
        if en < 10000 {
            prev
        } else {
            add_sat(prev, ed.target_node_id, en)
        }
    }
}

/// Memory spread from every seed, in seed order.
pub open spec fn stage6_incs(seeds: Seq<(i64, i64)>, e: AdvancedEngine) -> Seq<(i64, i64)>
    decreases seeds.len(),
{
    if seeds.len() == 0 {
        Seq::empty()
    } else {
        let prev = stage6_incs(seeds.drop_last(), e);
        match e.graph.getv(seeds.last().0) {
            Some(es) => inc_edges(prev, seeds.last().1, es@, e),
            None => prev,
        }
    }
}

/// Merges the memory-spread increments into the activations, additively.
pub open spec fn merge_incs(base: Seq<(i64, i64)>, incs: Seq<(i64, i64)>) -> Seq<(i64, i64)>
    decreases incs.len(),
{
    if incs.len() == 0 {
        base
    } else {
        add_sat(merge_incs(base, incs.drop_last()), incs.last().0, incs.last().1)
    }
}

/// The entries whose ids name stored event nodes, in order.
pub open spec fn events_only(s: Seq<(i64, i64)>, e: AdvancedEngine) -> Seq<(i64, i64)>
    decreases s.len(),
{
    if s.len() == 0 {
        Seq::empty()
    } else {
        events_only(s.drop_last(), e) + (if e.nodes.getv(s.last().0) matches Some(n)
            && n.node_type == NodeType::Event {
            seq![s.last()]
        } else {
            Seq::empty()
        })
    }
}

/// The lateral-inhibition seed cap.
pub open spec fn cap5000(s: Seq<(i64, i64)>) -> Seq<(i64, i64)> {
    if s.len() > 5000 {
        s.take(5000)
    } else {
        s
    }
}

/// One refined entry: the stored score decays by the Ebbinghaus factor
/// of the event's age, then gains the fingerprint resonance boosts.
pub open spec fn refine_one(p: (i64, i64), e: AdvancedEngine, qfp: u64, rt: u64) -> (i64, i64) {
    match e.nodes.getv(p.0) {
        None => p,
        Some(n) => {
            let b1 = tdiv(similarity_micros_of(qfp, n.fingerprint, MASK_SEMANTIC) * 600000, 1000000);
            let b2 = if qfp & MASK_TEMPORAL != 0 {
                tdiv(similarity_micros_of(qfp, n.fingerprint, MASK_TEMPORAL) * 500000, 1000000)
            } else {
                0
            };
            let b3: int = if qfp & MASK_AFFECTIVE != 0 && ((qfp & MASK_AFFECTIVE) >> 48) & ((
            n.fingerprint & MASK_AFFECTIVE) >> 48) != 0 {
                600000
            } else {
                0
            };
            let b4 = if qfp & MASK_TYPE != 0 {
                tdiv(similarity_micros_of(qfp, n.fingerprint, MASK_TYPE) * 800000, 1000000)
            } else {
                0
            };
            let tnow: u64 = if rt > 0 {
                rt
            } else {
                1777593600
            };
            let s1: i64 = if n.timestamp > 0 && n.timestamp < tnow {
                sat64(tdiv(p.1 * ebb_factor_of((tnow - n.timestamp) as u64), 1000000))
            } else {
                p.1
            };
            (p.0, sat64(s1 + b1 + b2 + b3 + b4))
        },
    }
}

/// Refinement of the fifty best entries; the rest stay as they are.
pub open spec fn refine50(s: Seq<(i64, i64)>, e: AdvancedEngine, qfp: u64, rt: u64) -> Seq<
    (i64, i64),
> {
    Seq::new(
        s.len(),
        |i: int|
            if i < 50 {
                refine_one(s[i], e, qfp, rt)
            } else {
                s[i]
            },
    )
}

/// The matches the compiled matcher reports on the lowercased query, or
/// none without a matcher.
pub open spec fn query_matches(e: AdvancedEngine, ql: Seq<char>) -> Seq<(usize, usize, usize)> {
    match e.ac_matcher {
        Some(m) => ac_find(ac_patterns(m), ql),
        None => Seq::empty(),
    }
}

/// The full deterministic retrieval result for a query: the ranked
/// event list of the graph track.
pub open spec fn retrieve_spec(e: AdvancedEngine, q: Seq<char>, rt: u64) -> Seq<(i64, i64)> {
    let ql = lower_of(q);
    let qfp = query_fp_of(ql, rt);
    let ms = query_matches(e, ql);
    let a1 = stage1(ms, string_views(e.feature_keywords@), e.keyword_to_node);
    let a3 = stage3(stage2(a1, e, qfp), e, qfp);
    let a5 = stage5(stage4(a3, e));
    let seeds = cap5000(sort_pairs_spec(a5));
    let merged = merge_incs(a5, stage6_incs(seeds, e));
    let sorted1 = sort_pairs_spec(events_only(merged, e));
    sort_pairs_spec(refine50(sorted1, e, qfp, rt))
}

/// Finds the index of id `k` in an activation vector.
fn afind_idx(v: &Vec<(i64, i64)>, k: i64) -> (r: Option<usize>)
    ensures
        match r {
            Some(i) => afind(v@, k) == Some(i as int) && i < v@.len() && v@[i as int].0 == k,
            None => afind(v@, k) is None,
        },
{
    let n = v.len();
    let mut i: usize = 0;
    while i < n
        invariant
            n == v@.len(),
            i <= n,
            afind(v@, k) == afind_from(v@, k, i as int),
        decreases n - i,
    {
        if v[i].0 == k {
            return Some(i);
        }
        i = i + 1;
    }
    None
}

/// Applies `set_at` to an activation vector.
fn set_at_vec(v: &mut Vec<(i64, i64)>, k: i64, val: i64)
    ensures
        final (v)@ == set_at(old(v)@, k, val),
{
    let found = afind_idx(v, k);
    match found {
        Some(i) => {
            v.set(i, (k, val));
        },
        None => {
            v.push((k, val));
        },
    }
}

/// Applies `raise_to` to an activation vector.
fn raise_vec(v: &mut Vec<(i64, i64)>, k: i64, val: i64)
    ensures
        final (v)@ == raise_to(old(v)@, k, val),
{
    let found = afind_idx(v, k);
    match found {
        Some(i) => {
            if val > v[i].1 {
                v.set(i, (k, val));
            }
        },
        None => {
            let stored: i64 = if val > 0 {
                val
            } else {
                0
            };
            v.push((k, stored));
        },
    }
}

/// Applies `add_sat` to an activation vector.
fn add_sat_vec(v: &mut Vec<(i64, i64)>, k: i64, e: i64)
    ensures
        final (v)@ == add_sat(old(v)@, k, e),
{
    let found = afind_idx(v, k);
    match found {
        Some(i) => {
            let cur = v[i].1;
            let nv = crate::fixed::sat_add_i64(cur, e);
            v.set(i, (k, nv));
        },
        None => {
            v.push((k, e));
        },
    }
}

/// An element-wise copy of an activation vector.
fn copy_pairs(v: &Vec<(i64, i64)>) -> (r: Vec<(i64, i64)>)
    ensures
        r@ == v@,
{
    let n = v.len();
    let mut r: Vec<(i64, i64)> = Vec::new();
    let mut i: usize = 0;
    while i < n
        invariant
            n == v@.len(),
            i <= n,
            r@ == v@.take(i as int),
        decreases n - i,
    {
        r.push(v[i]);
        i = i + 1;
    }
    proof {
        assert(v@.take(n as int) =~= v@);
    }
    r
}


impl AdvancedEngine {
    /// Runs the deterministic graph track of retrieval: feature,
    /// temporal and affective activation, ontology spread, normalization,
    /// memory spread, and event projection with fingerprint refinement.
    /// The result is the ranked `(event id, score)` list, scores in
    /// millionths, sorted by score descending.
    #[verifier::rlimit(100)]
    pub fn retrieve(&self, query: &str, ref_time: u64) -> (r: Vec<(i64, i64)>)
        requires
            self.wf(),
        ensures
            r@ == retrieve_spec(*self, query@, ref_time),
            pairs_sorted_desc(r@),
            forall|k: int|
                0 <= k < r@.len() ==> crate::laws::is_event_entry(*self, #[trigger] r@[k]),
    {
        proof {
            crate::laws::lemma_retrieve_shape(*self, query@, ref_time);
        }
        let lower = lowercase(query);
        let qfp = SimHash::compute_for_query(lower.as_str(), ref_time);
        let ghost ql = lower_of(query@);
        let ghost kws = string_views(self.feature_keywords@);
        let ghost ms_spec = query_matches(*self, ql);
        proof {
            assert(qfp == query_fp_of(ql, ref_time));
        }

        let mut act: Vec<(i64, i64)> = Vec::new();
        match &self.ac_matcher {
            Some(m) => {
                let ms = crate::matcher::find_matches(m, lower.as_str());
                proof {
                    assert(ms@ == ms_spec);
                    assert(ms_spec.take(0) =~= Seq::<(usize, usize, usize)>::empty());
                }
                let mn = ms.len();
                let mut j: usize = 0;
                while j < mn
                    invariant
                        self.wf(),
                        mn == ms@.len(),
                        j <= mn,
                        ms@ == ms_spec,
                        kws == string_views(self.feature_keywords@),
                        (self.ac_matcher matches Some(mm) && ac_patterns(mm).len()
                            <= kws.len()),
                        forall|x: int|
                            0 <= x < ms@.len() ==> (#[trigger] ms@[x]).2 < kws.len(),
                        act@ == stage1(ms_spec.take(j as int), kws, self.keyword_to_node),
                    decreases mn - j,
                {
                    let pid = ms[j].2;
                    let kw = &self.feature_keywords[pid];
                    proof {
                        assert(kw@ == kws[pid as int]);
                        assert(ms_spec.take(j + 1).drop_last() =~= ms_spec.take(j as int));
                        assert(ms_spec.take(j + 1).last() == ms_spec[j as int]);
                    }
                    let found = self.keyword_to_node.find_idx(kw.as_str());
                    match found {
                        Some(i) => {
                            let nid = self.keyword_to_node.ids[i];
                            proof {
                                assert(self.keyword_to_node.getid(kw@) == Some(nid));
                            }
                            set_at_vec(&mut act, nid, 1000000);
                        },
                        None => {
                        },
                    }
                    j = j + 1;
                }
                proof {
                    assert(ms_spec.take(mn as int) =~= ms_spec);
                }
            },
            None => {
                proof {
                    assert(ms_spec =~= Seq::<(usize, usize, usize)>::empty());
                    assert(act@ == stage1(ms_spec, kws, self.keyword_to_node));
                }
            },
        }
        let ghost a1v = act@;
        proof {
            assert(a1v == stage1(ms_spec, kws, self.keyword_to_node));
        }

        if qfp & MASK_TEMPORAL != 0 {
            let stv: u16 = ((qfp & MASK_TEMPORAL) >> 32) as u16;
            let found = self.temporal_index.find_idx(stv as i64);
            match found {
                Some(i) => {
                    proof {
                        assert(self.temporal_index.getv(stv as i64) matches Some(b) && b@
                            == self.temporal_index.vals@[i as int]@);
                    }
                    let bucket = &self.temporal_index.vals[i];
                    let ghost bv = bucket@;
                    let bn = bucket.len();
                    let mut k: usize = 0;
                    proof {
                        assert(bv.take(0) =~= Seq::<i64>::empty());
                    }
                    while k < bn
                        invariant
                            bn == bv.len(),
                            k <= bn,
                            bucket@ == bv,
                            bv == self.temporal_index.vals@[i as int]@,
                            i < self.temporal_index.vals@.len(),
                            act@ == raise_ids(a1v, bv.take(k as int), 600000),
                        decreases bn - k,
                    {
                        proof {
                            assert(bv.take(k + 1).drop_last() =~= bv.take(k as int));
                            assert(bv.take(k + 1).last() == bv[k as int]);
                        }
                        raise_vec(&mut act, bucket[k], 600000);
                        k = k + 1;
                    }
                    proof {
                        assert(bv.take(bn as int) =~= bv);
                    }
                },
                None => {
                },
            }
        }
        let ghost a2v = act@;
        proof {
            assert(a2v == stage2(a1v, *self, qfp));
        }

        let emo: u8 = ((qfp & MASK_AFFECTIVE) >> 48) as u8;
        let mut bi: usize = 0;
        while bi < 8
            invariant
                self.wf(),
                bi <= 8,
                stage3_from(a2v, *self, emo, 0) == stage3_from(act@, *self, emo, bi as int),
            decreases 8 - bi,
        {
            let ghost act_in = act@;
            let bit: u8 = 1u8 << (bi as u8);
            if emo & bit != 0 {
                let found = self.affective_index.find_idx(bit as i64);
                match found {
                    Some(i) => {
                        proof {
                            assert(self.affective_index.getv(bit as i64) matches Some(b) && b@
                                == self.affective_index.vals@[i as int]@);
                        }
                        let bucket = &self.affective_index.vals[i];
                        let ghost bv = bucket@;
                        let bn = bucket.len();
                        let mut k: usize = 0;
                        proof {
                            assert(bv.take(0) =~= Seq::<i64>::empty());
                        }
                        while k < bn
                            invariant
                                bn == bv.len(),
                                k <= bn,
                                bucket@ == bv,
                                bv == self.affective_index.vals@[i as int]@,
                                i < self.affective_index.vals@.len(),
                                act@ == raise_ids(act_in, bv.take(k as int), 700000),
                            decreases bn - k,
                        {
                            proof {
                                assert(bv.take(k + 1).drop_last() =~= bv.take(k as int));
                                assert(bv.take(k + 1).last() == bv[k as int]);
                            }
                            raise_vec(&mut act, bucket[k], 700000);
                            k = k + 1;
                        }
                        proof {
                            assert(bv.take(bn as int) =~= bv);
                        }
                    },
                    None => {
                    },
                }
            }
            proof {
                assert(stage3_from(act_in, *self, emo, bi as int) == stage3_from(
                    act@,
                    *self,
                    emo,
                    bi + 1,
                ));
            }
            bi = bi + 1;
        }
        let ghost a3v = act@;
        proof {
            assert(a3v == stage3(a2v, *self, qfp));
        }

        let mut expanded = copy_pairs(&act);
        let an = act.len();
        let mut j: usize = 0;
        proof {
            assert(a3v.take(0) =~= Seq::<(i64, i64)>::empty());
        }
        while j < an
            invariant
                self.wf(),
                an == a3v.len(),
                j <= an,
                act@ == a3v,
                expanded@ == stage4_acts(a3v, a3v.take(j as int), *self),
            decreases an - j,
        {
            proof {
                assert(a3v.take(j + 1).drop_last() =~= a3v.take(j as int));
                assert(a3v.take(j + 1).last() == a3v[j as int]);
            }
            let nid = act[j].0;
            let score = act[j].1;
            let found = self.ontology_graph.find_idx(nid);
            match found {
                Some(gi) => {
                    proof {
                        assert(self.ontology_graph.getv(nid) matches Some(l) && l@
                            == self.ontology_graph.vals@[gi as int]@);
                    }
                    let es = &self.ontology_graph.vals[gi];
                    let ghost esv = es@;
                    let ghost exp_in = expanded@;
                    let en_count = es.len();
                    let mut k: usize = 0;
                    proof {
                        assert(esv.take(0) =~= Seq::<GraphEdge>::empty());
                    }
                    while k < en_count
                        invariant
                            self.wf(),
                            en_count == esv.len(),
                            k <= en_count,
                            es@ == esv,
                            esv == self.ontology_graph.vals@[gi as int]@,
                            gi < self.ontology_graph.vals@.len(),
                            expanded@ == spread_edges(exp_in, score, esv.take(k as int), *self),
                        decreases en_count - k,
                    {
                        proof {
                            assert(esv.take(k + 1).drop_last() =~= esv.take(k as int));
                            assert(esv.take(k + 1).last() == esv[k as int]);
                        }
                        let ed = es[k];
                        if ed.edge_type == 1 {
                            raise_vec(&mut expanded, ed.target_node_id, score);
                        } else {
                            let dv: u32 = match self.in_degrees.find_idx(ed.target_node_id) {
                                Some(di) => self.in_degrees.vals[di],
                                None => 1,
                            };
                            let invf = crate::fixed::inv_freq(dv);
                            proof {
                                assert(invf == inv_freq_of(
                                    deg_used(*self, ed.target_node_id),
                                ));
                            }
                            let en = crate::fixed::energy(
                                score,
                                ed.connection_strength,
                                950000,
                                invf,
                            );
                            if ed.edge_type == 255 {
                                let ne: i64 = if en == i64::MIN {
                                    i64::MAX
                                } else {
                                    -en
                                };
                                proof {
                                    assert(ne == neg64(en));
                                }
                                add_sat_vec(&mut expanded, ed.target_node_id, ne);
                            } else {
                                if en >= 50000 {
                                    raise_vec(&mut expanded, ed.target_node_id, en);
                                }
                            }
                        }
                        k = k + 1;
                    }
                    proof {
                        assert(esv.take(en_count as int) =~= esv);
                    }
                },
                None => {
                },
            }
            j = j + 1;
        }
        proof {
            assert(a3v.take(an as int) =~= a3v);
        }
        let ghost a4v = expanded@;
        proof {
            assert(a4v == stage4(a3v, *self));
        }

        let en2 = expanded.len();
        let mut tot: i128 = 0;
        let mut ti: usize = 0;
        proof {
            assert(a4v.take(0) =~= Seq::<(i64, i64)>::empty());
        }
        while ti < en2
            invariant
                en2 == a4v.len(),
                ti <= en2,
                expanded@ == a4v,
                tot == total_of(a4v.take(ti as int)),
                -((ti as int) * 0x8000000000000000) <= tot <= (ti as int) * 0x8000000000000000,
            decreases en2 - ti,
        {
            proof {
                assert(a4v.take(ti + 1).drop_last() =~= a4v.take(ti as int));
                assert(a4v.take(ti + 1).last() == a4v[ti as int]);
            }
            tot = tot + expanded[ti].1 as i128;
            ti = ti + 1;
        }
        proof {
            assert(a4v.take(en2 as int) =~= a4v);
        }
        if tot > 10000000 {
            let mut si: usize = 0;
            while si < en2
                invariant
                    en2 == a4v.len(),
                    en2 == expanded@.len(),
                    si <= en2,
                    tot == total_of(a4v),
                    tot > 10000000,
                    forall|a: int|
                        0 <= a < si ==> #[trigger] expanded@[a] == (
                        a4v[a].0,
                        sat64(tdiv(a4v[a].1 * 10000000, tot as int)),
                    ),
                    forall|a: int| si <= a < en2 ==> #[trigger] expanded@[a] == a4v[a],
                decreases en2 - si,
            {
                let pr = expanded[si];
                proof {
                    crate::fixed::lemma_mul_abs_bound(
                        pr.1 as int,
                        10000000,
                        0x8000000000000000,
                        10000000,
                    );
                }
                let scaled = crate::fixed::sat_i64(
                    crate::fixed::tdiv_i128(pr.1 as i128 * 10000000, tot),
                );
                expanded.set(si, (pr.0, scaled));
                si = si + 1;
            }
            proof {
                assert(expanded@ =~= a4v.map_values(
                    |p: (i64, i64)| (p.0, sat64(tdiv(p.1 * 10000000, total_of(a4v)))),
                ));
            }
        }
        let ghost a5v = expanded@;
        proof {
            assert(a5v == stage5(a4v));
        }

        let mut seeds = copy_pairs(&expanded);
        crate::sorts::sort_pairs_desc(&mut seeds);
        if seeds.len() > 5000 {
            seeds.truncate(5000);
        }
        proof {
            assert(seeds@ == cap5000(sort_pairs_spec(a5v)));
        }
        let ghost sv = seeds@;
        let mut incs: Vec<(i64, i64)> = Vec::new();
        let sn = seeds.len();
        let mut j2: usize = 0;
        proof {
            assert(sv.take(0) =~= Seq::<(i64, i64)>::empty());
        }
        while j2 < sn
            invariant
                self.wf(),
                sn == sv.len(),
                j2 <= sn,
                seeds@ == sv,
                incs@ == stage6_incs(sv.take(j2 as int), *self),
            decreases sn - j2,
        {
            proof {
                assert(sv.take(j2 + 1).drop_last() =~= sv.take(j2 as int));
                assert(sv.take(j2 + 1).last() == sv[j2 as int]);
            }
            let nid = seeds[j2].0;
            let score = seeds[j2].1;
            let found = self.graph.find_idx(nid);
            match found {
                Some(gi) => {
                    proof {
                        assert(self.graph.getv(nid) matches Some(l) && l@
                            == self.graph.vals@[gi as int]@);
                    }
                    let es = &self.graph.vals[gi];
                    let ghost esv = es@;
                    let ghost incs_in = incs@;
                    let ecount = es.len();
                    let mut k: usize = 0;
                    proof {
                        assert(esv.take(0) =~= Seq::<GraphEdge>::empty());
                    }
                    while k < ecount
                        invariant
                            self.wf(),
                            ecount == esv.len(),
                            k <= ecount,
                            es@ == esv,
                            esv == self.graph.vals@[gi as int]@,
                            gi < self.graph.vals@.len(),
                            incs@ == inc_edges(incs_in, score, esv.take(k as int), *self),
                        decreases ecount - k,
                    {
                        proof {
                            assert(esv.take(k + 1).drop_last() =~= esv.take(k as int));
                            assert(esv.take(k + 1).last() == esv[k as int]);
                        }
                        let ed = es[k];
                        let dv: u32 = match self.in_degrees.find_idx(ed.target_node_id) {
                            Some(di) => self.in_degrees.vals[di],
                            None => 1,
                        };
                        let invf = crate::fixed::inv_freq(dv);
                        proof {
                            assert(invf == inv_freq_of(deg_used(*self, ed.target_node_id)));
                        }
                        let en = crate::fixed::energy(
                            score,
                            ed.connection_strength,
                            850000,
                            invf,
                        );
                        if en >= 10000 {
                            add_sat_vec(&mut incs, ed.target_node_id, en);
                        }
                        k = k + 1;
                    }
                    proof {
                        assert(esv.take(ecount as int) =~= esv);
                    }
                },
                None => {
                },
            }
            j2 = j2 + 1;
        }
        proof {
            assert(sv.take(sn as int) =~= sv);
        }
        let ghost incv = incs@;
        proof {
            assert(incv == stage6_incs(sv, *self));
        }

        let mut results = expanded;
        let icount = incs.len();
        let mut j3: usize = 0;
        proof {
            assert(incv.take(0) =~= Seq::<(i64, i64)>::empty());
        }
        while j3 < icount
            invariant
                icount == incv.len(),
                j3 <= icount,
                incs@ == incv,
                results@ == merge_incs(a5v, incv.take(j3 as int)),
            decreases icount - j3,
        {
            proof {
                assert(incv.take(j3 + 1).drop_last() =~= incv.take(j3 as int));
                assert(incv.take(j3 + 1).last() == incv[j3 as int]);
            }
            add_sat_vec(&mut results, incs[j3].0, incs[j3].1);
            j3 = j3 + 1;
        }
        proof {
            assert(incv.take(icount as int) =~= incv);
        }
        let ghost mv = results@;
        proof {
            assert(mv == merge_incs(a5v, incv));
        }

        let mut events: Vec<(i64, i64)> = Vec::new();
        let rcount = results.len();
        let mut j4: usize = 0;
        proof {
            assert(mv.take(0) =~= Seq::<(i64, i64)>::empty());
            assert(events@ =~= events_only(mv.take(0), *self));
        }
        while j4 < rcount
            invariant
                self.wf(),
                rcount == mv.len(),
                j4 <= rcount,
                results@ == mv,
                events@ == events_only(mv.take(j4 as int), *self),
            decreases rcount - j4,
        {
            proof {
                assert(mv.take(j4 + 1).drop_last() =~= mv.take(j4 as int));
                assert(mv.take(j4 + 1).last() == mv[j4 as int]);
            }
            let rid = results[j4].0;
            let found = self.nodes.find_idx(rid);
            let mut keep = false;
            match found {
                Some(ni) => {
                    proof {
                        assert(self.nodes.getv(rid) matches Some(n) && n
                            == self.nodes.vals@[ni as int]);
                    }
                    keep = match self.nodes.vals[ni].node_type {
                        NodeType::Event => true,
                        NodeType::Feature => false,
                    };
                },
                None => {
                },
            }
            if keep {
                let ghost prev = events@;
                events.push(results[j4]);
                proof {
                    assert(events@ =~= prev + seq![mv[j4 as int]]);
                }
            } else {
                proof {
                    assert(events_only(mv.take(j4 + 1), *self) =~= events_only(
                        mv.take(j4 as int),
                        *self,
                    ) + Seq::<(i64, i64)>::empty());
                }
            }
            j4 = j4 + 1;
        }
        proof {
            assert(mv.take(rcount as int) =~= mv);
        }
        crate::sorts::sort_pairs_desc(&mut events);
        let ghost s1v = events@;

        let evn = events.len();
        let lim: usize = if evn < 50 {
            evn
        } else {
            50
        };
        let mut ri: usize = 0;
        while ri < lim
            invariant
                self.wf(),
                lim <= evn,
                lim <= 50,
                evn == s1v.len(),
                evn == events@.len(),
                ri <= lim,
                forall|a: int|
                    0 <= a < ri ==> #[trigger] events@[a] == refine_one(
                        s1v[a],
                        *self,
                        qfp,
                        ref_time,
                    ),
                forall|a: int| ri <= a < evn ==> #[trigger] events@[a] == s1v[a],
            decreases lim - ri,
        {
            let pr = events[ri];
            let found = self.nodes.find_idx(pr.0);
            match found {
                Some(ni) => {
                    proof {
                        assert(self.nodes.getv(pr.0) matches Some(n) && n
                            == self.nodes.vals@[ni as int]);
                    }
                    let nfp = self.nodes.vals[ni].fingerprint;
                    let nts = self.nodes.vals[ni].timestamp;
                    let sem = SimHash::similarity_weighted(qfp, nfp, MASK_SEMANTIC);
                    let b1: i64 = ((sem as u64 * 600000) / 1000000) as i64;
                    let b2: i64 = if qfp & MASK_TEMPORAL != 0 {
                        let ts = SimHash::similarity_weighted(qfp, nfp, MASK_TEMPORAL);
                        ((ts as u64 * 500000) / 1000000) as i64
                    } else {
                        0
                    };
                    let b3: i64 = if qfp & MASK_AFFECTIVE != 0 && ((qfp & MASK_AFFECTIVE) >> 48)
                        & ((nfp & MASK_AFFECTIVE) >> 48) != 0 {
                        600000
                    } else {
                        0
                    };
                    let b4: i64 = if qfp & MASK_TYPE != 0 {
                        let ts = SimHash::similarity_weighted(qfp, nfp, MASK_TYPE);
                        ((ts as u64 * 800000) / 1000000) as i64
                    } else {
                        0
                    };
                    let tnow: u64 = if ref_time > 0 {
                        ref_time
                    } else {
                        1777593600
                    };
                    let s1: i64 = if nts > 0 && nts < tnow {
                        let f = crate::fixed::ebb_factor(tnow - nts);
                        proof {
                            crate::fixed::lemma_mul_abs_bound(
                                pr.1 as int,
                                f as int,
                                0x8000000000000000,
                                1000000,
                            );
                        }
                        crate::fixed::sat_i64(
                            crate::fixed::tdiv_i128(pr.1 as i128 * f as i128, 1000000),
                        )
                    } else {
                        pr.1
                    };
                    let nv = crate::fixed::sat_i64(
                        s1 as i128 + b1 as i128 + b2 as i128 + b3 as i128 + b4 as i128,
                    );
                    events.set(ri, (pr.0, nv));
                    proof {
                        assert(events@[ri as int] == refine_one(
                            s1v[ri as int],
                            *self,
                            qfp,
                            ref_time,
                        ));
                    }
                },
                None => {
                    proof {
                        assert(events@[ri as int] == refine_one(
                            s1v[ri as int],
                            *self,
                            qfp,
                            ref_time,
                        ));
                    }
                },
            }
            ri = ri + 1;
        }
        proof {
            assert(events@ =~= refine50(s1v, *self, qfp, ref_time));
        }
        crate::sorts::sort_pairs_desc(&mut events);
        events
    }
}


/// The chaos candidates among the stored fingerprints: every index whose
/// Hamming distance to the query fingerprint is below 64, with that
/// distance, in store order.
pub open spec fn cands_of(fps: Seq<u128>, q: u128) -> Seq<(usize, u32)>
    decreases fps.len(),
{
    if fps.len() == 0 {
        Seq::empty()
    } else {
        cands_of(fps.drop_last(), q) + (if pop128(q ^ fps.last()) < 64 {
            seq![(((fps.len() - 1) as usize), pop128(q ^ fps.last()) as u32)]
        } else {
            Seq::empty()
        })
    }
}

/// The candidate cap of the coarse rank.
pub open spec fn cap5000c(s: Seq<(usize, u32)>) -> Seq<(usize, u32)> {
    if s.len() > 5000 {
        s.take(5000)
    } else {
        s
    }
}

/// The combined map after the graph track is scaled down by the chaos
/// level, in result order.
pub open spec fn scale_results(rs: Seq<(i64, i64)>, cl: u32) -> Seq<(i64, i64)>
    decreases rs.len(),
{
    if rs.len() == 0 {
        Seq::empty()
    } else {
        set_at(
            scale_results(rs.drop_last(), cl),
            rs.last().0,
            sat64(tdiv(rs.last().1 * (1000000 - cl), 1000000)),
        )
    }
}

/// The weighted chaos contribution of one cosine similarity, in
/// millionths: similarities at or below 0.95 contribute nothing, the
/// excess is normalized over 0.05, scaled by 0.15 and by the chaos level.
pub open spec fn chaos_score_of(sim: i64, cl: u32) -> i64 {
    if sim > 950000 {
        sat64(tdiv(tdiv((sim - 950000) * 20 * 150000, 1000000) * cl, 1000000))
    } else {
        0i64
    }
}

/// The chaos contributions added into the combined map, in order.
pub open spec fn add_chaos(
    comb: Seq<(i64, i64)>,
    sims: Seq<(i64, i64)>,
    cl: u32,
) -> Seq<(i64, i64)>
    decreases sims.len(),
{
    if sims.len() == 0 {
        comb
    } else {
        let prev = add_chaos(comb, sims.drop_last(), cl);
        let p = sims.last();
        if p.1 > 950000 {
            add_sat(prev, p.0, chaos_score_of(p.1, cl))
        } else {
            prev
        }
    }
}

/// The blended, ranked result of the two tracks.
pub open spec fn blend_spec(rs: Seq<(i64, i64)>, sims: Seq<(i64, i64)>, cl: u32) -> Seq<
    (i64, i64),
> {
    sort_pairs_spec(add_chaos(scale_results(rs, cl), sims, cl))
}

impl AdvancedEngine {
    /// The coarse chaos rank: scans the chaos store for fingerprints
    /// within Hamming distance 63 of the query fingerprint and returns
    /// the closest 5000, ascending by distance.
    pub fn chaos_candidates(&self, query_fp: u128) -> (r: Vec<(usize, u32)>)
        requires
            self.wf(),
        ensures
            r@ == cap5000c(crate::sorts::sort_cands_spec(
                cands_of(self.chaos_store.fingerprints@, query_fp),
            )),
            crate::sorts::cands_sorted_asc(r@),
            r@.len() <= 5000,
    {
        let ghost fps = self.chaos_store.fingerprints@;
        let n = self.chaos_store.fingerprints.len();
        let mut cands: Vec<(usize, u32)> = Vec::new();
        let mut i: usize = 0;
        proof {
            assert(fps.take(0) =~= Seq::<u128>::empty());
            assert(cands@ =~= cands_of(fps.take(0), query_fp));
        }
        while i < n
            invariant
                n == fps.len(),
                i <= n,
                self.chaos_store.fingerprints@ == fps,
                cands@ == cands_of(fps.take(i as int), query_fp),
            decreases n - i,
        {
            proof {
                assert(fps.take(i + 1).drop_last() =~= fps.take(i as int));
                assert(fps.take(i + 1).last() == fps[i as int]);
            }
            let d = crate::fixed::popcount128(query_fp ^ self.chaos_store.fingerprints[i]);
            if d < 64 {
                let ghost prev = cands@;
                cands.push((i, d));
                proof {
                    assert(cands@ =~= prev + seq![(i, d)]);
                }
            } else {
                proof {
                    assert(cands_of(fps.take(i + 1), query_fp) =~= cands_of(
                        fps.take(i as int),
                        query_fp,
                    ) + Seq::<(usize, u32)>::empty());
                }
            }
            i = i + 1;
        }
        proof {
            assert(fps.take(n as int) =~= fps);
        }
        crate::sorts::sort_cands_asc(&mut cands);
        if cands.len() > 5000 {
            cands.truncate(5000);
        }
        cands
    }
}

/// Blends the ranked graph-track results with chaos similarities: the
/// graph scores are scaled by one minus the chaos level, each similarity
/// above 0.95 adds its weighted chaos score, and the combined list is
/// ranked again.
pub fn blend_chaos(
    graph_results: &Vec<(i64, i64)>,
    chaos_sims: &Vec<(i64, i64)>,
    chaos_level_micros: u32,
) -> (r: Vec<(i64, i64)>)
    requires
        chaos_level_micros <= 1000000,
        forall|i: int|
            0 <= i < chaos_sims@.len() ==> -2000000 <= (#[trigger] chaos_sims@[i]).1 <= 2000000,
    ensures
        r@ == blend_spec(graph_results@, chaos_sims@, chaos_level_micros),
        pairs_sorted_desc(r@),
{
    let ghost rs = graph_results@;
    let ghost sims = chaos_sims@;
    let cl = chaos_level_micros;
    let mut comb: Vec<(i64, i64)> = Vec::new();
    let rn = graph_results.len();
    let mut i: usize = 0;
    proof {
        assert(rs.take(0) =~= Seq::<(i64, i64)>::empty());
        assert(comb@ =~= scale_results(rs.take(0), cl));
    }
    while i < rn
        invariant
            rn == rs.len(),
            i <= rn,
            graph_results@ == rs,
            cl <= 1000000,
            comb@ == scale_results(rs.take(i as int), cl),
        decreases rn - i,
    {
        proof {
            assert(rs.take(i + 1).drop_last() =~= rs.take(i as int));
            assert(rs.take(i + 1).last() == rs[i as int]);
        }
        let p = graph_results[i];
        proof {
            crate::fixed::lemma_mul_abs_bound(
                p.1 as int,
                (1000000 - cl) as int,
                0x8000000000000000,
                1000000,
            );
        }
        let scaled = crate::fixed::sat_i64(
            crate::fixed::tdiv_i128(p.1 as i128 * (1000000 - cl) as i128, 1000000),
        );
        set_at_vec(&mut comb, p.0, scaled);
        i = i + 1;
    }
    proof {
        assert(rs.take(rn as int) =~= rs);
    }
    let sn = chaos_sims.len();
    let mut j: usize = 0;
    proof {
        assert(sims.take(0) =~= Seq::<(i64, i64)>::empty());
    }
    while j < sn
        invariant
            sn == sims.len(),
            j <= sn,
            chaos_sims@ == sims,
            cl <= 1000000,
            forall|x: int| 0 <= x < sims.len() ==> -2000000 <= (#[trigger] sims[x]).1 <= 2000000,
            comb@ == add_chaos(scale_results(rs, cl), sims.take(j as int), cl),
        decreases sn - j,
    {
        proof {
            assert(sims.take(j + 1).drop_last() =~= sims.take(j as int));
            assert(sims.take(j + 1).last() == sims[j as int]);
        }
        let p = chaos_sims[j];
        if p.1 > 950000 {
            let normalized: i64 = (p.1 - 950000) * 20;
            let cs = crate::fixed::tdiv_i128(normalized as i128 * 150000, 1000000);
            proof {
                crate::fixed::lemma_mul_abs_bound(cs as int, cl as int, 21000000, 1000000);
            }
            let wc = crate::fixed::sat_i64(crate::fixed::tdiv_i128(cs * cl as i128, 1000000));
            proof {
                assert(wc == chaos_score_of(p.1, cl));
            }
            add_sat_vec(&mut comb, p.0, wc);
        }
        j = j + 1;
    }
    proof {
        assert(sims.take(sn as int) =~= sims);
    }
    crate::sorts::sort_pairs_desc(&mut comb);
    comb
}

} // verus!
